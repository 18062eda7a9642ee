//! State of the terminal views that browse and annotate log files: which
//! entry is highlighted and where the visible window starts.

use vstd::prelude::*;
use std::collections::HashMap;

verus! {

/// What the main loop does after an input event.
pub enum WhatToDo {
    Exit,
    StayOnSameState,
    OpenFile((usize, usize)),
    ListDir,
}

/// Options of the annotation view.
pub struct ApolloArgs {
    /// The file that annotations are saved to and loaded from.
    pub output: String,
    /// Whether annotations are written as CSV too.
    pub to_csv: bool,
}

/// Options of the view that compares annotations.
pub struct ArthemisArgs {
    /// The CSV file of human annotations.
    pub human_path: String,
    /// The CSV file of the annotations that the algorithms produced.
    pub merged_path: String,
}

/// A list of log paths, with one highlighted and those already annotated
/// marked.
pub struct PathListWidget<'a> {
    pub lines: &'a Vec<&'a str>,
    pub start: usize,
    pub highlighted: usize,
    pub annotated: Vec<&'a str>,
}

impl<'a> PathListWidget<'a> {
    pub fn new(files: &'a Vec<&'a str>) -> (r: Self)
        ensures
            r.lines == files,
            r.start == 0,
            r.highlighted == 0,
            r.annotated@.len() == 0,
    {
        PathListWidget { lines: files, start: 0, highlighted: 0, annotated: Vec::new() }
    }

    pub fn highlighted(self, highlighted: usize) -> (r: Self)
        ensures
            r.highlighted == highlighted,
            r.lines == self.lines,
            r.start == self.start,
            r.annotated == self.annotated,
    {
        PathListWidget { highlighted, ..self }
    }

    pub fn start(self, start: usize) -> (r: Self)
        ensures
            r.start == start,
            r.lines == self.lines,
            r.highlighted == self.highlighted,
            r.annotated == self.annotated,
    {
        PathListWidget { start, ..self }
    }

    pub fn annotated(self, annotated: Vec<&'a str>) -> (r: Self)
        ensures
            r.annotated == annotated,
            r.lines == self.lines,
            r.start == self.start,
            r.highlighted == self.highlighted,
    {
        PathListWidget { annotated, ..self }
    }
}

/// The lines of one log file, scrolled vertically from `start` and
/// horizontally from `line_start`, with annotated line numbers marked.
pub struct LogFileWdiget<'a> {
    pub lines: &'a Vec<String>,
    pub start: usize,
    pub line_start: usize,
    pub highlighted: usize,
    pub annotated: Option<&'a Vec<usize>>,
}

impl<'a> LogFileWdiget<'a> {
    pub fn new(lines: &'a Vec<String>, annotated: Option<&'a Vec<usize>>) -> (r: Self)
        ensures
            r.lines == lines,
            r.annotated == annotated,
            r.start == 0,
            r.line_start == 0,
            r.highlighted == 0,
    {
        LogFileWdiget { lines, start: 0, line_start: 0, highlighted: 0, annotated }
    }

    pub fn highlighted(self, highlighted: usize) -> (r: Self)
        ensures
            r.highlighted == highlighted,
            r.lines == self.lines,
            r.annotated == self.annotated,
            r.start == self.start,
            r.line_start == self.line_start,
    {
        LogFileWdiget { highlighted, ..self }
    }

    pub fn start(self, start: usize) -> (r: Self)
        ensures
            r.start == start,
            r.lines == self.lines,
            r.annotated == self.annotated,
            r.highlighted == self.highlighted,
            r.line_start == self.line_start,
    {
        LogFileWdiget { start, ..self }
    }

    pub fn line_start(self, line_start: usize) -> (r: Self)
        ensures
            r.line_start == line_start,
            r.lines == self.lines,
            r.annotated == self.annotated,
            r.highlighted == self.highlighted,
            r.start == self.start,
    {
        LogFileWdiget { line_start, ..self }
    }
}

/// The view that lists the log files, with the annotations made so far.
pub struct FileChooserState<'a> {
    pub start: usize,
    pub highlighted: usize,
    pub log_paths: &'a Vec<&'a str>,
    pub annotations: HashMap<String, Vec<usize>>,
}

impl<'a> FileChooserState<'a> {
    pub fn new(log_paths: &'a Vec<&'a str>, annotations: HashMap<String, Vec<usize>>) -> (r: Self)
        ensures
            r.log_paths == log_paths,
            r.annotations == annotations,
            r.start == 0,
            r.highlighted == 0,
    {
        FileChooserState { start: 0, highlighted: 0, log_paths, annotations }
    }

    pub fn start(self, start: usize) -> (r: Self)
        ensures
            r.start == start,
            r.highlighted == self.highlighted,
            r.log_paths == self.log_paths,
            r.annotations == self.annotations,
    {
        FileChooserState { start, ..self }
    }

    pub fn highlighted(self, highlighted: usize) -> (r: Self)
        ensures
            r.highlighted == highlighted,
            r.start == self.start,
            r.log_paths == self.log_paths,
            r.annotations == self.annotations,
    {
        FileChooserState { highlighted, ..self }
    }
}

/// The view that lists the log files, without annotations.
pub struct FileChooser<'a> {
    pub start: usize,
    pub highlighted: usize,
    pub log_paths: &'a Vec<&'a str>,
}

impl<'a> FileChooser<'a> {
    pub fn new(log_paths: &'a Vec<&'a str>) -> (r: Self)
        ensures
            r.log_paths == log_paths,
            r.start == 0,
            r.highlighted == 0,
    {
        FileChooser { start: 0, highlighted: 0, log_paths }
    }

    pub fn start(self, start: usize) -> (r: Self)
        ensures
            r.start == start,
            r.highlighted == self.highlighted,
            r.log_paths == self.log_paths,
    {
        FileChooser { start, ..self }
    }

    pub fn highlighted(self, highlighted: usize) -> (r: Self)
        ensures
            r.highlighted == highlighted,
            r.start == self.start,
            r.log_paths == self.log_paths,
    {
        FileChooser { highlighted, ..self }
    }
}

/// The view of one opened log file, scrolled to its top.
pub struct FileOpenedState {
    pub start: usize,
    pub line_start: usize,
    pub highlighted: usize,
    pub log_path: String,
    pub lines: Vec<String>,
    pub annotations: HashMap<String, Vec<usize>>,
}

impl FileOpenedState {
    /// The view of `log_path`, whose cleaned lines are `lines`.
    pub fn new(log_path: String, lines: Vec<String>, annotations: HashMap<String, Vec<usize>>) -> (r:
        Self)
        ensures
            r.log_path == log_path,
            r.lines == lines,
            r.annotations == annotations,
            r.start == 0,
            r.line_start == 0,
            r.highlighted == 0,
    {
        FileOpenedState { start: 0, line_start: 0, highlighted: 0, log_path, lines, annotations }
    }
}

/// The view of one opened log file, with the selected lines of each
/// annotator.
pub struct FileOpened {
    pub start: usize,
    pub line_start: usize,
    pub highlighted: usize,
    pub log_path: String,
    pub lines: Vec<String>,
    pub selections: HashMap<usize, Vec<bool>>,
}

impl FileOpened {
    /// The view of `log_path`, whose cleaned lines are `lines`.
    pub fn new(log_path: String, lines: Vec<String>, selections: HashMap<usize, Vec<bool>>) -> (r: Self)
        ensures
            r.log_path == log_path,
            r.lines == lines,
            r.selections == selections,
            r.start == 0,
            r.line_start == 0,
            r.highlighted == 0,
    {
        FileOpened { start: 0, line_start: 0, highlighted: 0, log_path, lines, selections }
    }
}

} // verus!
