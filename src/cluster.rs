//! Clusters: a template of tokens with wildcards, an id and a size.

use vstd::prelude::*;
use crate::text::token_views;

verus! {

/// A group of log lines that share one template.
#[derive(Clone, Debug, PartialEq, Eq)]
pub struct LogCluster {
    pub log_template_tokens: Vec<String>,
    pub cluster_id: usize,
    pub size: usize,
}

/// The mathematical value of a cluster.
pub struct ClusterView {
    pub id: nat,
    pub template: Seq<Seq<char>>,
    pub size: nat,
}

impl View for LogCluster {
    type V = ClusterView;

    open spec fn view(&self) -> ClusterView {
        ClusterView {
            id: self.cluster_id as nat,
            template: token_views(self.log_template_tokens@),
            size: self.size as nat,
        }
    }
}

/// Tokens joined by single spaces.
pub open spec fn joined(toks: Seq<Seq<char>>) -> Seq<char>
    decreases toks.len(),
{
    if toks.len() == 0 {
        Seq::empty()
    } else if toks.len() == 1 {
        toks[0]
    } else {
        joined(toks.drop_last()) + seq![' '] + toks.last()
    }
}

impl LogCluster {
    /// The template as text: its tokens joined by single spaces, the
    /// wildcard written as its marker.
    pub fn to_string(&self) -> (r: String)
        ensures
            r@ == joined(self@.template),
    {
        let ghost tv = self@.template;
        let mut out = String::new();
        let mut i: usize = 0;
        while i < self.log_template_tokens.len()
            invariant
                i <= self.log_template_tokens.len(),
                tv == self@.template,
                out@ == joined(tv.take(i as int)),
            decreases self.log_template_tokens.len() - i,
        {
            proof {
                reveal_strlit(" ");
                let t = tv.take(i as int + 1);
                assert(t.drop_last() =~= tv.take(i as int));
                assert(t.last() == self.log_template_tokens@[i as int]@);
                if i == 0 {
                    assert(joined(tv.take(0)) =~= Seq::<char>::empty());
                }
            }
            if i > 0 {
                out.append(" ");
            }
            out.append(self.log_template_tokens[i].as_str());
            proof {
                if i == 0 {
                    assert(out@ =~= joined(tv.take(1)));
                } else {
                    assert(out@ =~= joined(tv.take(i as int + 1)));
                }
            }
            i += 1;
        }
        assert(tv.take(tv.len() as int) =~= tv);
        out
    }

    /// A copy of the cluster.
    pub fn copy(&self) -> (r: LogCluster)
        ensures
            r@ == self@,
    {
        let mut toks: Vec<String> = Vec::new();
        let mut i: usize = 0;
        while i < self.log_template_tokens.len()
            invariant
                i <= self.log_template_tokens.len(),
                toks@.len() == i,
                forall|j: int| 0 <= j < i ==> toks@[j] == self.log_template_tokens@[j],
            decreases self.log_template_tokens.len() - i,
        {
            toks.push(self.log_template_tokens[i].clone());
            i += 1;
        }
        assert(toks@ =~= self.log_template_tokens@);
        LogCluster { log_template_tokens: toks, cluster_id: self.cluster_id, size: self.size }
    }
}

} // verus!
