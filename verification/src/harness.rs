//! The plain part of the harness that compiles and runs the test programs:
//! where things are, which files are tests and what a test expects.
use crate::text::{matches_at, occurs_at};
use vstd::prelude::*;
use vstd::string::*;

verus! {

/// A path with one more component.
pub open spec fn joined(path: Seq<char>, part: Seq<char>) -> Seq<char> {
    if path.len() == 0 || path.last() == '/' {
        path + part
    } else {
        path.push('/') + part
    }
}

/// Adds a component, which is not an absolute path, to a path.
pub fn join(path: &str, part: &str) -> (r: String)
    ensures
        r@ == joined(path@, part@),
{
    let mut r = path.to_owned();
    let n = path.unicode_len();
    if n != 0 && path.get_char(n - 1) != '/' {
        proof {
            reveal_strlit("/");
            assert("/"@ =~= seq!['/']);
            assert(path@ + "/"@ =~= path@.push('/'));
        }
        r.append("/");
    }
    r.append(part);
    r
}

/// The directory that a build leaves its results in.
pub open spec fn target_dir(manifest_dir: Seq<char>, debug: bool) -> Seq<char> {
    joined(
        joined(manifest_dir, "target"@),
        if debug {
            "debug"@
        } else {
            "release"@
        },
    )
}

/// The directory that a build leaves its results in.
fn build_dir(manifest_dir: &str, debug: bool) -> (r: String)
    ensures
        r@ == target_dir(manifest_dir@, debug),
{
    let path = join(manifest_dir, "target");
    if debug {
        join(path.as_str(), "debug")
    } else {
        join(path.as_str(), "release")
    }
}

/// The argument that tells the compiler where this library is.
pub fn libgcmalloc_path(manifest_dir: &str, debug: bool) -> (r: String)
    ensures
        r@ == "gcmalloc="@ + joined(target_dir(manifest_dir@, debug), "libgcmalloc.rlib"@),
{
    let path = join(build_dir(manifest_dir, debug).as_str(), "libgcmalloc.rlib");
    "gcmalloc=".to_owned().concat(path.as_str())
}

/// The argument that tells the compiler where the libraries are that this
/// library depends on.
pub fn deps_path(manifest_dir: &str, debug: bool) -> (r: String)
    ensures
        r@ == "dependency="@ + joined(target_dir(manifest_dir@, debug), "deps"@),
{
    let path = join(build_dir(manifest_dir, debug).as_str(), "deps");
    "dependency=".to_owned().concat(path.as_str())
}

/// The directory of the project.
pub fn proj_dir(manifest_dir: &str) -> (r: String)
    ensures
        r@ == manifest_dir@,
{
    manifest_dir.to_owned()
}

/// The directory of the test programs.
pub fn test_dir(manifest_dir: &str) -> (r: String)
    ensures
        r@ == joined(joined(joined(manifest_dir@, "gc_tests"@), "tests"@), "."@),
{
    let path = join(manifest_dir, "gc_tests");
    let path = join(path.as_str(), "tests");
    join(path.as_str(), ".")
}

/// Is a file, of this extension and stem, a test for the natively compiled
/// library?
pub fn is_native_test(extension: &str, stem: &str) -> (r: bool)
    ensures
        r == (extension@ == "rs"@ && !exists|at: int| occurs_at(stem@, "valgrind"@, at)),
{
    if extension.to_owned() != "rs".to_owned() {
        return false;
    }
    let n = stem.unicode_len();
    let mut at: usize = 0;
    loop
        invariant
            n == stem@.len(),
            at <= n,
            extension@ == "rs"@,
            forall|k: int| 0 <= k < at ==> !occurs_at(stem@, "valgrind"@, k),
        decreases n - at,
    {
        if matches_at(stem, "valgrind", at) {
            return false;
        }
        if at == n {
            return true;
        }
        at = at + 1;
    }
}

/// Is a file, of this extension, a test to run under valgrind?
pub fn is_checked_test(extension: &str) -> (r: bool)
    ensures
        r == (extension@ == "rs"@),
{
    extension.to_owned() == "rs".to_owned()
}

/// Is a file, of this extension and stem, a test for the interpreter?
pub fn is_interpreted_test(extension: &str, stem: &str) -> (r: bool)
    ensures
        r == (extension@ == "rs"@ && occurs_at(stem@, "miri"@, 0)),
{
    extension.to_owned() == "rs".to_owned() && matches_at(stem, "miri", 0)
}

/// Where the line that starts at `i` ends: at the next line feed, or with the
/// text.
pub open spec fn line_end(text: Seq<char>, i: int) -> int
    decreases text.len() - i,
{
    if i >= text.len() || text[i] == '\n' {
        i
    } else {
        line_end(text, i + 1)
    }
}

/// A line up to `end` without the carriage return before a line feed.
pub open spec fn line_between(text: Seq<char>, start: int, end: int) -> Seq<char> {
    if start < end < text.len() && text[end - 1] == '\r' {
        text.subrange(start, end - 1)
    } else {
        text.subrange(start, end)
    }
}

/// The leading comment lines of a text, from position `i` on, without the
/// slashes that start them.
pub open spec fn comment_lines(text: Seq<char>, i: int) -> Seq<Seq<char>>
    decreases text.len() + 1 - i,
{
    if occurs_at(text, "//"@, i) {
        proof {
            lemma_line_end(text, i);
        }
        seq![line_between(text, i + 2, line_end(text, i))] + comment_lines(
            text,
            line_end(text, i) + 1,
        )
    } else {
        Seq::empty()
    }
}

/// Lines, with a line feed between each two.
pub open spec fn joined_lines(lines: Seq<Seq<char>>) -> Seq<char>
    decreases lines.len(),
{
    if lines.len() == 0 {
        Seq::empty()
    } else if lines.len() == 1 {
        lines[0]
    } else {
        joined_lines(lines.drop_last()) + "\n"@ + lines.last()
    }
}

/// The end of a line is no earlier than where it is looked for.
pub proof fn lemma_line_end(text: Seq<char>, i: int)
    requires
        0 <= i <= text.len(),
    ensures
        i <= line_end(text, i) <= text.len(),
        line_end(text, i) < text.len() ==> text[line_end(text, i)] == '\n',
    decreases text.len() - i,
{
    if i < text.len() && text[i] != '\n' {
        lemma_line_end(text, i + 1);
    }
}

/// A line that starts with slashes goes on for as long.
proof fn lemma_comment_start(text: Seq<char>, i: int)
    requires
        occurs_at(text, "//"@, i),
    ensures
        i + 2 <= line_end(text, i),
{
    reveal_strlit("//");
    let part = text.subrange(i, i + 2);
    assert(part[0] == '/' && part[1] == '/');
    assert(text[i] == '/' && text[i + 1] == '/');
    reveal_with_fuel(line_end, 3);
    lemma_line_end(text, i + 2);
}

/// What a test expects: the leading comment lines of its text.
pub fn test_extract(text: &str) -> (r: String)
    ensures
        r@ == joined_lines(comment_lines(text@, 0)),
{
    let n = text.unicode_len();
    let mut out = String::new();
    let mut first = true;
    let mut i: usize = 0;
    let ghost mut done = Seq::<Seq<char>>::empty();
    proof {
        assert(done + comment_lines(text@, 0) =~= comment_lines(text@, 0));
    }
    loop
        invariant
            n == text@.len(),
            i <= n,
            first == (done.len() == 0),
            out@ == joined_lines(done),
            comment_lines(text@, 0) == done + comment_lines(text@, i as int),
        decreases n - i,
    {
        if !matches_at(text, "//", i) {
            proof {
                assert(done + comment_lines(text@, i as int) =~= done);
            }
            return out;
        }
        proof {
            lemma_comment_start(text@, i as int);
            lemma_line_end(text@, i as int);
        }
        let mut end: usize = i;
        while end < n && text.get_char(end) != '\n'
            invariant
                n == text@.len(),
                i <= end <= n,
                line_end(text@, i as int) == line_end(text@, end as int),
            decreases n - end,
        {
            end = end + 1;
        }
        let stop = if i + 2 < end && end < n && text.get_char(end - 1) == '\r' {
            end - 1
        } else {
            end
        };
        if !first {
            out.append("\n");
        }
        let line = text.substring_char(i + 2, stop);
        out.append(line);
        first = false;
        let ghost more = done.push(line@);
        proof {
            assert(more.drop_last() =~= done);
            assert(out@ =~= joined_lines(more));
            let rest = comment_lines(text@, end + 1);
            assert(comment_lines(text@, i as int) == seq![line@] + rest);
            assert(done + (seq![line@] + rest) =~= more + rest);
        }
        if end == n {
            proof {
                assert(comment_lines(text@, end + 1) =~= Seq::<Seq<char>>::empty());
                assert(more + comment_lines(text@, end + 1) =~= more);
            }
            return out;
        }
        i = end + 1;
        proof {
            done = more;
        }
    }
}

/// A path with one more component starts with the path and ends with the
/// component. Exactly one slash parts them, which is that of the path if it ends
/// with one. Nothing stands in front of the component of an empty path.
pub proof fn law_joined_paths(path: Seq<char>, part: Seq<char>)
    ensures
        path.len() == 0 ==> joined(path, part) == part,
        path.len() > 0 && path[path.len() - 1] == '/' ==> joined(path, part) == path + part,
        path.len() > 0 && path[path.len() - 1] != '/' ==> joined(path, part) == path + seq!['/']
            + part,
{
    assert(path.push('/') + part =~= path + seq!['/'] + part);
    if path.len() == 0 {
        assert(path + part =~= part);
    }
}

/// A build leaves its results in `target/debug` or in `target/release` of the
/// project.
pub proof fn law_target_dir(manifest_dir: Seq<char>)
    requires
        manifest_dir.len() > 0,
        manifest_dir[manifest_dir.len() - 1] != '/',
    ensures
        target_dir(manifest_dir, true) == manifest_dir + "/target/debug"@,
        target_dir(manifest_dir, false) == manifest_dir + "/target/release"@,
{
    reveal_strlit("target");
    reveal_strlit("debug");
    reveal_strlit("release");
    reveal_strlit("/target/debug");
    reveal_strlit("/target/release");
    let t = joined(manifest_dir, "target"@);
    law_joined_paths(manifest_dir, "target"@);
    assert(t[t.len() - 1] == 't');
    law_joined_paths(t, "debug"@);
    law_joined_paths(t, "release"@);
    assert("target"@ =~= seq!['t', 'a', 'r', 'g', 'e', 't']);
    assert(target_dir(manifest_dir, true) =~= manifest_dir + "/target/debug"@);
    assert(target_dir(manifest_dir, false) =~= manifest_dir + "/target/release"@);
}

/// A line ends at the first line feed, or with the text, however long it is.
pub proof fn law_line_end(text: Seq<char>, i: int, e: int)
    requires
        0 <= i <= e <= text.len(),
        forall|j: int| i <= j < e ==> (#[trigger] text[j]) != '\n',
        e == text.len() || text[e] == '\n',
    ensures
        line_end(text, i) == e,
    decreases e - i,
{
    if i < e {
        assert(text[i] != '\n');
        law_line_end(text, i + 1, e);
    }
}

/// A comment line with a line feed behind it is the first of the comment lines of
/// a text, without its slashes, whatever follows. Those of the rest come next. A
/// carriage return in front of the line feed is not part of it.
pub proof fn law_comment_lines_are_extracted(line: Seq<char>, rest: Seq<char>)
    requires
        forall|j: int| 0 <= j < line.len() ==> (#[trigger] line[j]) != '\n',
        line.len() == 0 || line[line.len() - 1] != '\r',
    ensures
        comment_lines(seq!['/', '/'] + line + seq!['\n'] + rest, 0) == seq![line] + comment_lines(
            rest,
            0,
        ),
        comment_lines(seq!['/', '/'] + line + seq!['\r', '\n'] + rest, 0) == seq![line]
            + comment_lines(rest, 0),
{
    lemma_first_comment_line(line, seq!['\n'], rest);
    lemma_first_comment_line(line, seq!['\r', '\n'], rest);
}

/// A comment line and what ends it.
proof fn lemma_first_comment_line(line: Seq<char>, end: Seq<char>, rest: Seq<char>)
    requires
        forall|j: int| 0 <= j < line.len() ==> (#[trigger] line[j]) != '\n',
        line.len() == 0 || line[line.len() - 1] != '\r',
        end == seq!['\n'] || end == seq!['\r', '\n'],
    ensures
        comment_lines(seq!['/', '/'] + line + end + rest, 0) == seq![line] + comment_lines(rest, 0),
{
    let text = seq!['/', '/'] + line + end + rest;
    let n = line.len() as int;
    let e = n + 1 + end.len();
    reveal_strlit("//");
    assert("//"@ =~= seq!['/', '/']);
    assert(text.subrange(0, 2) =~= "//"@);
    assert forall|j: int| 0 <= j < e implies (#[trigger] text[j]) != '\n' by {
        if 2 <= j < n + 2 {
            assert(text[j] == line[j - 2]);
        }
    }
    assert(text[e] == '\n');
    law_line_end(text, 0, e);
    assert(occurs_at(text, "//"@, 0));
    if end == seq!['\r', '\n'] {
        assert(text[e - 1] == '\r');
        assert(text.subrange(2, e - 1) =~= line);
    } else {
        if n > 0 {
            assert(text[e - 1] == line[n - 1]);
        }
        assert(text.subrange(2, e) =~= line);
    }
    assert(line_between(text, 2, e) == line);
    let front = seq!['/', '/'] + line + end;
    assert(front + rest =~= text);
    lemma_lines_shift(front, rest, 0);
    assert(front.len() + 0 == e + 1);
}

/// What stands in front of lines does not matter.
proof fn lemma_lines_shift(front: Seq<char>, text: Seq<char>, i: int)
    requires
        0 <= i,
    ensures
        comment_lines(front + text, front.len() + i) == comment_lines(text, i),
    decreases text.len() + 1 - i,
{
    let all = front + text;
    let n = front.len() as int;
    reveal_strlit("//");
    if i + 2 <= text.len() {
        assert(all.subrange(n + i, n + i + 2) =~= text.subrange(i, i + 2));
    }
    if occurs_at(text, "//"@, i) {
        lemma_line_end(text, i);
        lemma_comment_start(text, i);
        lemma_end_shift(front, text, i);
        let e = line_end(text, i);
        lemma_lines_shift(front, text, e + 1);
        assert(n + (e + 1) == (n + e) + 1);
        assert(n + (i + 2) == (n + i) + 2);
        assert(all[n + e - 1] == text[e - 1]);
        assert(all.subrange(n + i + 2, n + e) =~= text.subrange(i + 2, e));
        if i + 2 < e {
            assert(all.subrange(n + i + 2, n + e - 1) =~= text.subrange(i + 2, e - 1));
        }
        assert(line_between(all, n + i + 2, n + e) == line_between(text, i + 2, e));
    }
}

/// What stands in front of a line does not matter.
proof fn lemma_end_shift(front: Seq<char>, text: Seq<char>, i: int)
    requires
        0 <= i <= text.len(),
    ensures
        line_end(front + text, front.len() + i) == front.len() + line_end(text, i),
    decreases text.len() - i,
{
    let all = front + text;
    let n = front.len();
    if i < text.len() {
        assert(all[n + i] == text[i]);
        if text[i] != '\n' {
            lemma_end_shift(front, text, i + 1);
            assert(n + (i + 1) == (n + i) + 1);
        }
    }
}

/// A last line without a line feed is as it is. A text that does not start with
/// slashes has no comment lines.
pub proof fn law_comment_lines_end(line: Seq<char>, text: Seq<char>)
    requires
        forall|j: int| 0 <= j < line.len() ==> (#[trigger] line[j]) != '\n',
        text.len() < 2 || text[0] != '/' || text[1] != '/',
    ensures
        comment_lines(seq!['/', '/'] + line, 0) == seq![line],
        comment_lines(text, 0) == Seq::<Seq<char>>::empty(),
{
    let all = seq!['/', '/'] + line;
    let n = line.len() as int;
    reveal_strlit("//");
    assert("//"@ =~= seq!['/', '/']);
    assert(all.subrange(0, 2) =~= "//"@);
    assert forall|j: int| 0 <= j < n + 2 implies (#[trigger] all[j]) != '\n' by {
        if j >= 2 {
            assert(all[j] == line[j - 2]);
        }
    }
    law_line_end(all, 0, n + 2);
    assert(all.subrange(2, n + 2) =~= line);
    assert(comment_lines(all, n + 3) =~= Seq::<Seq<char>>::empty());
    assert(seq![line] + Seq::<Seq<char>>::empty() =~= seq![line]);
    if text.len() >= 2 {
        assert(text.subrange(0, 2)[0] == text[0] && text.subrange(0, 2)[1] == text[1]);
    }
}

/// Joined lines are the lines with a line feed between each two.
pub proof fn law_joined_lines(lines: Seq<Seq<char>>, line: Seq<char>)
    ensures
        joined_lines(Seq::<Seq<char>>::empty()) == Seq::<char>::empty(),
        joined_lines(seq![line]) == line,
        lines.len() > 0 ==> joined_lines(lines.push(line)) == joined_lines(lines) + seq!['\n']
            + line,
{
    reveal_strlit("\n");
    assert("\n"@ =~= seq!['\n']);
    assert(lines.push(line).drop_last() =~= lines);
}

} // verus!
