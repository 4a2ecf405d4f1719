//! The on-disk block marker format.
//!
//! A block is delimited by two sentinel lines:
//! a start marker `# GITIGNORE-CLI/START:<name>` and
//! an end marker `# GITIGNORE-CLI/END:<name>`.
//! This module defines the marker format, recognises marker lines,
//! and builds marker lines for a given block name.

use vstd::prelude::*;

verus! {

use vstd::string::StrSliceExecFns;
use vstd::string::StringExecFns;

/// The fixed prefix that every marker line carries.
pub open spec fn marker_prefix() -> Seq<char> {
    "# GITIGNORE-CLI/"@
}

/// The sub-tag that distinguishes a start marker.
pub open spec fn start_tag() -> Seq<char> {
    "START:"@
}

/// The sub-tag that distinguishes an end marker.
pub open spec fn end_tag() -> Seq<char> {
    "END:"@
}

/// The start-marker line for a block named `name`.
pub open spec fn start_marker(name: Seq<char>) -> Seq<char> {
    marker_prefix() + start_tag() + name
}

/// The end-marker line for a block named `name`.
pub open spec fn end_marker(name: Seq<char>) -> Seq<char> {
    marker_prefix() + end_tag() + name
}

/// `p` is an initial segment of `s`.
pub open spec fn is_prefix_of(p: Seq<char>, s: Seq<char>) -> bool {
    p.len() <= s.len() && s.subrange(0, p.len() as int) == p
}

/// A line that carries the marker prefix. In a well-formed buffer every
/// such line is exactly a start or end marker of some block.
pub open spec fn is_marker_line(l: Seq<char>) -> bool {
    is_prefix_of(marker_prefix(), l)
}

/// Whether `s` starts with `p`, stated over the characters of both.
pub fn str_has_prefix(s: &str, p: &str) -> (r: bool)
    ensures
        r == is_prefix_of(p@, s@),
{
    let s_len = s.unicode_len();
    let p_len = p.unicode_len();
    if p_len > s_len {
        return false;
    }
    let mut i: usize = 0;
    while i < p_len
        invariant
            p_len == p@.len(),
            s_len == s@.len(),
            p_len <= s_len,
            0 <= i <= p_len,
            forall|j: int| 0 <= j < i ==> s@[j] == p@[j],
        decreases p_len - i,
    {
        if s.get_char(i) != p.get_char(i) {
            assert(s@.subrange(0, p@.len() as int) != p@) by {
                assert(s@.subrange(0, p@.len() as int)[i as int] == s@[i as int]);
            }
            return false;
        }
        i = i + 1;
    }
    assert(s@.subrange(0, p@.len() as int) =~= p@);
    true
}

/// Character-for-character equality of two string slices.
pub fn str_eq(a: &str, b: &str) -> (r: bool)
    ensures
        r == (a@ == b@),
{
    let a_len = a.unicode_len();
    let b_len = b.unicode_len();
    if a_len != b_len {
        return false;
    }
    let mut i: usize = 0;
    while i < a_len
        invariant
            a_len == a@.len(),
            b_len == b@.len(),
            a_len == b_len,
            0 <= i <= a_len,
            forall|j: int| 0 <= j < i ==> a@[j] == b@[j],
        decreases a_len - i,
    {
        if a.get_char(i) != b.get_char(i) {
            return false;
        }
        i = i + 1;
    }
    assert(a@ =~= b@);
    true
}

/// How one line of the buffer reads to the block parser.
pub enum LineClass {
    /// An ordinary line, free of the marker prefix.
    Plain,
    /// A start marker, carrying the block name that follows the start tag.
    Start(String),
    /// An end marker, carrying the block name that follows the end tag.
    End(String),
    /// A line that carries the marker prefix but is neither kind of marker.
    Foreign,
}

/// Classify one line of the buffer.
pub fn classify_line(line: &str) -> (r: LineClass)
    ensures
        (r is Plain) == !is_marker_line(line@),
        r matches LineClass::Start(n) ==> line@ == start_marker(n@),
        r matches LineClass::End(n) ==> line@ == end_marker(n@),
        forall|m: Seq<char>| line@ == start_marker(m) ==> (r matches LineClass::Start(n) && n@ == m),
        forall|m: Seq<char>| line@ == end_marker(m) ==> (r matches LineClass::End(n) && n@ == m),
{
    let prefix = "# GITIGNORE-CLI/";
    if !str_has_prefix(line, prefix) {
        proof {
            lemma_marker_is_marker_line();
        }
        return LineClass::Plain;
    }
    let line_len = line.unicode_len();
    let header = line.substring_char(prefix.unicode_len(), line_len);
    assert(line@ =~= marker_prefix() + header@);
    if str_has_prefix(header, "START:") {
        let name = header.substring_char(str_len("START:"), header.unicode_len());
        assert(header@ =~= start_tag() + name@);
        assert(line@ =~= start_marker(name@));
        proof {
            lemma_markers_injective();
            lemma_start_ne_end();
        }
        LineClass::Start(String::from_str(name))
    } else if str_has_prefix(header, "END:") {
        let name = header.substring_char(str_len("END:"), header.unicode_len());
        assert(header@ =~= end_tag() + name@);
        assert(line@ =~= end_marker(name@));
        proof {
            lemma_markers_injective();
            lemma_start_ne_end();
            lemma_foreign_header(header@);
        }
        LineClass::End(String::from_str(name))
    } else {
        proof {
            lemma_foreign_header(header@);
        }
        assert forall|m: Seq<char>| line@ != start_marker(m) && line@ != end_marker(m) by {
            if line@ == start_marker(m) {
                assert(header@ =~= start_tag() + m);
                assert(is_prefix_of(start_tag(), header@)) by {
                    assert(header@.subrange(0, start_tag().len() as int) =~= start_tag());
                }
            }
            if line@ == end_marker(m) {
                assert(header@ =~= end_tag() + m);
                assert(is_prefix_of(end_tag(), header@)) by {
                    assert(header@.subrange(0, end_tag().len() as int) =~= end_tag());
                }
            }
        }
        LineClass::Foreign
    }
}

/// The character length of a string slice; a helper so that tag lengths
/// can be taken from the literals themselves.
fn str_len(s: &str) -> (r: usize)
    ensures
        r == s@.len(),
{
    s.unicode_len()
}

/// Every marker line (start or end, any name) carries the marker prefix.
pub proof fn lemma_marker_is_marker_line()
    ensures
        forall|n: Seq<char>| #[trigger] is_marker_line(start_marker(n)),
        forall|n: Seq<char>| #[trigger] is_marker_line(end_marker(n)),
{
    assert forall|n: Seq<char>| #[trigger] is_marker_line(start_marker(n)) by {
        assert(start_marker(n).subrange(0, marker_prefix().len() as int) =~= marker_prefix());
    }
    assert forall|n: Seq<char>| #[trigger] is_marker_line(end_marker(n)) by {
        assert(end_marker(n).subrange(0, marker_prefix().len() as int) =~= marker_prefix());
    }
}

/// Marker lines determine their name: equal markers carry equal names.
pub proof fn lemma_markers_injective()
    ensures
        forall|a: Seq<char>, b: Seq<char>| start_marker(a) == start_marker(b) ==> a == b,
        forall|a: Seq<char>, b: Seq<char>| end_marker(a) == end_marker(b) ==> a == b,
{
    assert forall|a: Seq<char>, b: Seq<char>| start_marker(a) == start_marker(b) implies a == b by {
        let k = marker_prefix().len() + start_tag().len();
        assert(a =~= start_marker(a).subrange(k as int, start_marker(a).len() as int));
        assert(b =~= start_marker(b).subrange(k as int, start_marker(b).len() as int));
    }
    assert forall|a: Seq<char>, b: Seq<char>| end_marker(a) == end_marker(b) implies a == b by {
        let k = marker_prefix().len() + end_tag().len();
        assert(a =~= end_marker(a).subrange(k as int, end_marker(a).len() as int));
        assert(b =~= end_marker(b).subrange(k as int, end_marker(b).len() as int));
    }
}

/// A start marker is never an end marker: the two tags differ at their
/// first character.
pub proof fn lemma_start_ne_end()
    ensures
        forall|a: Seq<char>, b: Seq<char>| start_marker(a) != end_marker(b),
{
    assert forall|a: Seq<char>, b: Seq<char>| start_marker(a) != end_marker(b) by {
        reveal_strlit("START:");
        reveal_strlit("END:");
        let k = marker_prefix().len() as int;
        if start_marker(a) == end_marker(b) {
            assert(start_marker(a)[k] == start_tag()[0]);
            assert(end_marker(b)[k] == end_tag()[0]);
            assert(start_tag()[0] == 'S');
            assert(end_tag()[0] == 'E');
        }
    }
}

/// A header that starts with neither tag belongs to no marker.
proof fn lemma_foreign_header(h: Seq<char>)
    ensures
        !is_prefix_of(start_tag(), h) ==> forall|m: Seq<char>| h != start_tag() + m,
        !is_prefix_of(end_tag(), h) ==> forall|m: Seq<char>| h != end_tag() + m,
        is_prefix_of(start_tag(), h) ==> !is_prefix_of(end_tag(), h),
{
    if !is_prefix_of(start_tag(), h) {
        assert forall|m: Seq<char>| h != start_tag() + m by {
            if h == start_tag() + m {
                assert(h.subrange(0, start_tag().len() as int) =~= start_tag());
            }
        }
    }
    if !is_prefix_of(end_tag(), h) {
        assert forall|m: Seq<char>| h != end_tag() + m by {
            if h == end_tag() + m {
                assert(h.subrange(0, end_tag().len() as int) =~= end_tag());
            }
        }
    }
    if is_prefix_of(start_tag(), h) && is_prefix_of(end_tag(), h) {
        reveal_strlit("START:");
        reveal_strlit("END:");
        assert(h.subrange(0, start_tag().len() as int)[0] == h[0]);
        assert(h.subrange(0, end_tag().len() as int)[0] == h[0]);
        assert(start_tag()[0] == 'S');
        assert(end_tag()[0] == 'E');
    }
}

/// The marker prefix is not empty: a blank line is never a marker line.
pub proof fn lemma_marker_prefix_nonempty()
    ensures
        marker_prefix().len() > 0,
{
    reveal_strlit("# GITIGNORE-CLI/");
}

/// The marker-prefix literal.
pub fn marker_prefix_str() -> (r: &'static str)
    ensures
        r@ == marker_prefix(),
{
    "# GITIGNORE-CLI/"
}

/// Build the start-marker line for `name`.
pub fn make_start_marker(name: &str) -> (r: String)
    ensures
        r@ == start_marker(name@),
{
    let mut m = String::from_str("# GITIGNORE-CLI/");
    m.append("START:");
    m.append(name);
    assert(m@ =~= start_marker(name@));
    m
}

/// Build the end-marker line for `name`.
pub fn make_end_marker(name: &str) -> (r: String)
    ensures
        r@ == end_marker(name@),
{
    let mut m = String::from_str("# GITIGNORE-CLI/");
    m.append("END:");
    m.append(name);
    assert(m@ =~= end_marker(name@));
    m
}

} // verus!
