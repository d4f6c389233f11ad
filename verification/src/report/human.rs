//! The report for people: the largest directories and the first errors.
use crate::report::numbers::{decimal, format_count, format_number, grouped};
use crate::report::ranking::{first_lines, is_ranking, top_dirs};
use crate::scan::aggregator::{RootResult, ScanResult};
use crate::scan::tree::TreeNode;
use crate::text::{lossy, utf8_lossy};
use crate::walk::error::{failure_text, WalkError};
use vstd::prelude::*;

verus! {

/// A directory and its size.
#[derive(Debug, Clone)]
pub struct DirLine {
    pub size: u64,
    pub path: String,
}

/// What a [`DirLine`] says.
pub struct Line {
    pub size: u64,
    pub path: Seq<char>,
}

impl View for DirLine {
    type V = Line;

    open spec fn view(&self) -> Line {
        Line { size: self.size, path: self.path@ }
    }
}

/// What a vector of lines says.
pub open spec fn lines(list: Seq<DirLine>) -> Seq<Line> {
    list.map_values(|line: DirLine| line@)
}

/// The path of the child `name` of the directory `path`, as text.
pub open spec fn text_below(path: Seq<char>, name: Seq<char>) -> Seq<char> {
    if path == seq!['/'] {
        path + name
    } else {
        path.push('/') + name
    }
}

pub open spec fn size_of(node: TreeNode, apparent: bool) -> u64 {
    if apparent {
        node.apparent_size
    } else {
        node.disk_usage
    }
}

/// The lines of the directories at and below a node: first the node itself, if
/// `itself` says so, then what is below each child in turn.
pub open spec fn dir_lines(
    node: TreeNode,
    path: Seq<char>,
    apparent: bool,
    itself: bool,
) -> Seq<Line>
    decreases node, node.children@.len() + 1,
{
    if node.is_dir {
        let own = if itself {
            seq![Line { size: size_of(node, apparent), path }]
        } else {
            Seq::empty()
        };
        own + lines_below(node, path, apparent, node.children@.len() as int)
    } else {
        Seq::empty()
    }
}

/// The lines of the directories at and below the first `n` children of a node.
pub open spec fn lines_below(node: TreeNode, path: Seq<char>, apparent: bool, n: int) -> Seq<Line>
    decreases node, n,
{
    if n <= 0 || n > node.children@.len() {
        Seq::empty()
    } else {
        let child = node.children@[n - 1];
        lines_below(node, path, apparent, n - 1) + dir_lines(
            child,
            text_below(path, utf8_lossy(child.name@)),
            apparent,
            true,
        )
    }
}

/// Whether a text is a single slash.
fn is_slash(path: &String) -> (slash: bool)
    ensures
        slash == (path@ == seq!['/']),
{
    proof {
        reveal_strlit("/");
    }
    let slash = String::from_str("/");
    assert(slash@ =~= seq!['/']);
    *path == slash
}

/// Adds the lines of the directories at and below a node.
pub fn collect_dirs(
    node: &TreeNode,
    path: &String,
    apparent: bool,
    itself: bool,
    out: &mut Vec<DirLine>,
)
    ensures
        lines(final(out)@) == lines(old(out)@) + dir_lines(*node, path@, apparent, itself),
    decreases node,
{
    let ghost start = lines(out@);
    if node.is_dir {
        if itself {
            let size: u64 = if apparent {
                node.apparent_size
            } else {
                node.disk_usage
            };
            out.push(DirLine { size, path: path.clone() });
        }
        let ghost own = lines(out@);
        let mut i: usize = 0;
        while i < node.children.len()
            invariant
                i <= node.children@.len(),
                lines(out@) == own + lines_below(*node, path@, apparent, i as int),
            decreases node.children@.len() - i,
        {
            let child = &node.children[i];
            let mut below = path.clone();
            if !is_slash(path) {
                below.append("/");
            }
            let name = lossy(child.name.as_slice());
            below.append(name.as_str());
            proof {
                reveal_strlit("/");
                assert(below@ =~= text_below(path@, utf8_lossy(child.name@)));
            }
            let ghost before = lines(out@);
            collect_dirs(child, &below, apparent, true, out);
            i = i + 1;
            assert(lines(out@) =~= own + lines_below(*node, path@, apparent, i as int));
        }
        assert(lines(out@) =~= start + dir_lines(*node, path@, apparent, itself));
    } else {
        assert(lines(out@) =~= start + dir_lines(*node, path@, apparent, itself));
    }
}

/// How the root of a tree is written.
pub open spec fn root_text(name: Seq<u8>) -> Seq<char> {
    if utf8_lossy(name).len() == 0 {
        seq!['/']
    } else {
        utf8_lossy(name)
    }
}

/// The lines of the directories below the roots of the trees.
pub open spec fn lines_of_trees(trees: Seq<TreeNode>, apparent: bool) -> Seq<Line>
    decreases trees.len(),
{
    if trees.len() == 0 {
        Seq::empty()
    } else {
        lines_of_trees(trees.drop_last(), apparent) + dir_lines(
            trees.last(),
            root_text(trees.last().name@),
            apparent,
            false,
        )
    }
}

/// Lists the directories below the roots of the trees.
pub fn list_dirs(trees: &Vec<TreeNode>, apparent: bool) -> (out: Vec<DirLine>)
    ensures
        lines(out@) == lines_of_trees(trees@, apparent),
{
    let mut out: Vec<DirLine> = Vec::new();
    let mut i: usize = 0;
    assert(lines(out@) =~= Seq::<Line>::empty());
    while i < trees.len()
        invariant
            i <= trees@.len(),
            lines(out@) == lines_of_trees(trees@.take(i as int), apparent),
        decreases trees@.len() - i,
    {
        let mut path = lossy(trees[i].name.as_slice());
        let empty = String::new();
        assert(path@.len() == 0 ==> path@ =~= empty@);
        if path == empty {
            path = String::from_str("/");
            proof {
                reveal_strlit("/");
            }
            assert(path@ =~= seq!['/']);
        }
        collect_dirs(&trees[i], &path, apparent, false, &mut out);
        i = i + 1;
        assert(trees@.take(i as int).drop_last() =~= trees@.take(i - 1));
    }
    assert(trees@.take(i as int) =~= trees@);
    out
}

/// What is printed for people, line by line; the sizes are still numbers.
#[derive(Debug)]
pub struct HumanReport {
    /// One line for each root, if there are several.
    pub roots: Vec<DirLine>,
    pub total_size: u64,
    pub files: String,
    pub dirs: String,
    /// The largest directories, if they were asked for.
    pub top: Option<Vec<DirLine>>,
    pub errors: Vec<String>,
    /// The number of errors that are not listed.
    pub more_errors: usize,
}

/// The number of errors that are listed.
pub const ERRORS_SHOWN: usize = 10;

/// The line of each root.
pub open spec fn root_lines(roots: Seq<RootResult>) -> Seq<Line> {
    roots.map_values(|r: RootResult| Line { size: r.total_size, path: utf8_lossy(r.path@) })
}

fn list_roots(roots: &Vec<RootResult>) -> (out: Vec<DirLine>)
    ensures
        lines(out@) == root_lines(roots@),
{
    let mut out: Vec<DirLine> = Vec::new();
    let mut i: usize = 0;
    assert(lines(out@) =~= root_lines(roots@.take(0)));
    while i < roots.len()
        invariant
            i <= roots@.len(),
            lines(out@) == root_lines(roots@.take(i as int)),
        decreases roots@.len() - i,
    {
        let ghost before = out@;
        let path = lossy(roots[i].path.as_slice());
        out.push(DirLine { size: roots[i].total_size, path });
        i = i + 1;
        assert(lines(out@) =~= lines(before).push(out@.last()@));
        assert(lines(out@) =~= root_lines(roots@.take(i as int)));
    }
    assert(roots@.take(i as int) =~= roots@);
    out
}

/// The texts of the first errors.
fn list_errors(errors: &Vec<WalkError>) -> (out: Vec<String>)
    ensures
        out@.len() == if errors@.len() < ERRORS_SHOWN {
            errors@.len()
        } else {
            ERRORS_SHOWN as nat
        },
        forall|i: int| 0 <= i < out@.len() ==> (#[trigger] out@[i])@ == failure_text(errors@[i]@),
{
    let mut out: Vec<String> = Vec::new();
    while out.len() < errors.len() && out.len() < ERRORS_SHOWN
        invariant
            out@.len() <= errors@.len(),
            out@.len() <= ERRORS_SHOWN,
            forall|i: int| 0 <= i < out@.len() ==> (#[trigger] out@[i])@ == failure_text(errors@[i]@),
        decreases errors@.len() - out@.len(),
    {
        let text = errors[out.len()].to_text();
        out.push(text);
    }
    out
}

/// Whether `listed` are the first `n` of the directories of the trees.
pub open spec fn is_top(listed: Seq<Line>, trees: Seq<TreeNode>, apparent: bool, n: nat) -> bool {
    exists|order: Seq<usize>|
        #![trigger is_ranking(lines_of_trees(trees, apparent), order)]
        is_ranking(lines_of_trees(trees, apparent), order) && listed == first_lines(
            lines_of_trees(trees, apparent),
            order,
            n,
        )
}

/// The report for people. The largest directories are listed where `top` gives
/// a number of them other than zero, and there is a tree.
pub fn render(
    result: &ScanResult,
    errors: &Vec<WalkError>,
    top: Option<usize>,
    apparent: bool,
) -> (report: HumanReport)
    ensures
        lines(report.roots@) == (if result.roots@.len() > 1 {
            root_lines(result.roots@)
        } else {
            Seq::empty()
        }),
        report.total_size == result.total_size,
        report.files@ == grouped(result.file_count as int),
        report.dirs@ == grouped(result.dir_count as int),
        report.top is Some <==> top is Some && top->Some_0 > 0 && result.tree is Some,
        report.top is Some ==> is_top(
            lines(report.top->Some_0@),
            result.tree->Some_0@,
            apparent,
            top->Some_0 as nat,
        ),
        report.errors@.len() + report.more_errors == errors@.len(),
        report.errors@.len() == if errors@.len() < ERRORS_SHOWN {
            errors@.len()
        } else {
            ERRORS_SHOWN as nat
        },
        forall|i: int|
            0 <= i < report.errors@.len() ==> (#[trigger] report.errors@[i])@ == failure_text(errors@[i]@),
{
    let roots = if result.roots.len() > 1 {
        list_roots(&result.roots)
    } else {
        let none: Vec<DirLine> = Vec::new();
        assert(lines(none@) =~= Seq::<Line>::empty());
        none
    };
    let largest = match (top, &result.tree) {
        (Some(n), Some(trees)) => if n > 0 {
            let dirs = list_dirs(trees, apparent);
            Some(top_dirs(&dirs, n))
        } else {
            None
        },
        _ => None,
    };
    let shown = list_errors(errors);
    let more_errors: usize = errors.len() - shown.len();
    HumanReport {
        roots,
        total_size: result.total_size,
        files: format_count(result.file_count),
        dirs: format_count(result.dir_count),
        top: largest,
        errors: shown,
        more_errors,
    }
}

/// The text behind the total size.
pub open spec fn total_line(files: Seq<char>, dirs: Seq<char>) -> Seq<char> {
    "total ("@ + files + " files, "@ + dirs + " dirs)"@
}

/// The line above the largest directories.
pub open spec fn top_line(n: int) -> Seq<char> {
    "Top "@ + decimal(n) + " directories:"@
}

/// The line of an error.
pub open spec fn error_line(text: Seq<char>) -> Seq<char> {
    "error: "@ + text
}

/// The line that stands for the errors that are not listed.
pub open spec fn more_line(n: int) -> Seq<char> {
    "... and "@ + decimal(n) + " more errors"@
}

/// The line between the roots and the total.
pub fn rule_line() -> (line: String)
    ensures
        line@ == Seq::new(40, |i: int| '─'),
{
    proof {
        reveal_strlit("────────────────────────────────────────");
    }
    let line = String::from_str("────────────────────────────────────────");
    assert(line@ =~= Seq::new(40, |i: int| '─'));
    line
}

/// Writes the line above the largest directories.
pub fn write_top_line(n: usize) -> (line: String)
    ensures
        line@ == top_line(n as int),
{
    let mut line = String::from_str("Top ");
    let number = format_number(n as u64);
    line.append(number.as_str());
    line.append(" directories:");
    line
}

impl HumanReport {
    /// Writes the text behind the total size.
    pub fn write_total_line(&self) -> (line: String)
        ensures
            line@ == total_line(self.files@, self.dirs@),
    {
        let mut line = String::from_str("total (");
        line.append(self.files.as_str());
        line.append(" files, ");
        line.append(self.dirs.as_str());
        line.append(" dirs)");
        line
    }

    /// Writes the lines for the errors: one for each that is listed, and one
    /// for the others, if there are any.
    pub fn write_error_lines(&self) -> (out: Vec<String>)
        ensures
            out@.len() == self.errors@.len() + if self.more_errors > 0 {
                1nat
            } else {
                0
            },
            forall|i: int|
                0 <= i < self.errors@.len() ==> (#[trigger] out@[i])@ == error_line(
                    self.errors@[i]@,
                ),
            self.more_errors > 0 ==> out@.last()@ == more_line(self.more_errors as int),
    {
        let mut out: Vec<String> = Vec::new();
        let mut i: usize = 0;
        while i < self.errors.len()
            invariant
                i <= self.errors@.len(),
                out@.len() == i,
                forall|k: int|
                    0 <= k < i ==> (#[trigger] out@[k])@ == error_line(self.errors@[k]@),
            decreases self.errors@.len() - i,
        {
            let mut line = String::from_str("error: ");
            line.append(self.errors[i].as_str());
            out.push(line);
            i = i + 1;
        }
        if self.more_errors > 0 {
            let mut line = String::from_str("... and ");
            let number = format_number(self.more_errors as u64);
            line.append(number.as_str());
            line.append(" more errors");
            out.push(line);
        }
        out
    }
}

} // verus!
