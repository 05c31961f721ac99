//! The include-directive scanner: extracts, from raw source text, the header
//! names referenced by `#include` directives, in first-seen order.
//!
//! This is a textual scan, not a real preprocessor: a line qualifies when,
//! after leading blanks, it starts with the directive keyword; the reference
//! is the text between the first `"` or `<` found on the line and the
//! matching closing delimiter. A line whose closing delimiter never comes is
//! malformed and yields no reference.

use vstd::prelude::*;
use vstd::string::*;

verus! {

/// Blank characters that may precede the directive on a line (the ASCII
/// whitespace characters).
pub open spec fn is_blank(c: char) -> bool {
    c == ' ' || c == '\t' || c == '\n' || c == '\r' || c == '\u{0b}' || c == '\u{0c}'
}

/// The position of the first character at or after `i` that is not blank
/// (`l.len()` when all the rest are blank).
pub open spec fn skip_blanks(l: Seq<char>, i: int) -> int
    decreases l.len() - i when 0 <= i <= l.len()
{
    if i >= l.len() {
        i
    } else if is_blank(l[i]) {
        skip_blanks(l, i + 1)
    } else {
        i
    }
}

/// Does the directive keyword `#include` stand at position `i` of `l`?
pub open spec fn kw_at(l: Seq<char>, i: int) -> bool {
    &&& 0 <= i
    &&& i + 8 <= l.len()
    &&& l[i] == '#'
    &&& l[i + 1] == 'i'
    &&& l[i + 2] == 'n'
    &&& l[i + 3] == 'c'
    &&& l[i + 4] == 'l'
    &&& l[i + 5] == 'u'
    &&& l[i + 6] == 'd'
    &&& l[i + 7] == 'e'
}

/// The position of the first `"` or `<` at or after `i`, if any.
pub open spec fn find_open(l: Seq<char>, i: int) -> Option<int>
    decreases l.len() - i when 0 <= i <= l.len()
{
    if i >= l.len() {
        None
    } else if l[i] == '"' || l[i] == '<' {
        Some(i)
    } else {
        find_open(l, i + 1)
    }
}

/// The closing delimiter that matches an opening one.
pub open spec fn closer_for(open: char) -> char {
    if open == '"' {
        '"'
    } else {
        '>'
    }
}

/// The position of the first occurrence of `c` at or after `i`, if any.
pub open spec fn find_close(l: Seq<char>, c: char, i: int) -> Option<int>
    decreases l.len() - i when 0 <= i <= l.len()
{
    if i >= l.len() {
        None
    } else if l[i] == c {
        Some(i)
    } else {
        find_close(l, c, i + 1)
    }
}

/// The header reference one line yields, if any: the line must start, after
/// leading blanks, with the directive keyword; the reference is the text
/// between the first `"` or `<` and the matching closing delimiter. A line
/// with no opening delimiter, or whose closing delimiter never comes, yields
/// nothing.
pub open spec fn parse_include_spec(l: Seq<char>) -> Option<Seq<char>> {
    let k = skip_blanks(l, 0);
    if !kw_at(l, k) {
        None
    } else {
        match find_open(l, k) {
            None => None,
            Some(d) => match find_close(l, closer_for(l[d]), d + 1) {
                None => None,
                Some(e) => Some(l.subrange(d + 1, e)),
            },
        }
    }
}

fn is_blank_char(c: char) -> (r: bool)
    ensures
        r == is_blank(c),
{
    c == ' ' || c == '\t' || c == '\n' || c == '\r' || c == '\u{0b}' || c == '\u{0c}'
}

/// Scans one line for a directive and returns the header reference it names,
/// or `None` when the line is no directive or is malformed.
pub fn parse_include(line: &str) -> (r: Option<String>)
    ensures
        r.deep_view() == parse_include_spec(line@),
{
    let n = line.unicode_len();
    let mut k: usize = 0;
    while k < n && is_blank_char(line.get_char(k))
        invariant
            n == line@.len(),
            0 <= k <= n,
            skip_blanks(line@, 0) == skip_blanks(line@, k as int),
        decreases n - k,
    {
        k = k + 1;
    }
    assert(skip_blanks(line@, 0) == k as int);
    if n - k < 8 {
        return None;
    }
    if !(line.get_char(k) == '#' && line.get_char(k + 1) == 'i' && line.get_char(k + 2) == 'n'
        && line.get_char(k + 3) == 'c' && line.get_char(k + 4) == 'l' && line.get_char(k + 5)
        == 'u' && line.get_char(k + 6) == 'd' && line.get_char(k + 7) == 'e') {
        return None;
    }
    assert(kw_at(line@, k as int));
    let mut d: usize = k;
    while d < n && !(line.get_char(d) == '"' || line.get_char(d) == '<')
        invariant
            n == line@.len(),
            k <= d <= n,
            find_open(line@, k as int) == find_open(line@, d as int),
        decreases n - d,
    {
        d = d + 1;
    }
    if d == n {
        return None;
    }
    let open = line.get_char(d);
    let close = if open == '"' {
        '"'
    } else {
        '>'
    };
    assert(find_open(line@, k as int) == Some(d as int));
    assert(close == closer_for(line@[d as int]));
    let mut e: usize = d + 1;
    while e < n && line.get_char(e) != close
        invariant
            n == line@.len(),
            d + 1 <= e <= n,
            find_close(line@, close, d as int + 1) == find_close(line@, close, e as int),
        decreases n - e,
    {
        e = e + 1;
    }
    if e == n {
        return None;
    }
    assert(find_close(line@, close, d as int + 1) == Some(e as int));
    let s = line.substring_char(d + 1, e);
    Some(s.to_owned())
}

/// The lines of `c`, split on newline characters. The text with no newline
/// at all is one line; a trailing newline yields a final empty line.
pub open spec fn split_lines(c: Seq<char>) -> Seq<Seq<char>>
    decreases c.len(),
{
    if c.len() == 0 {
        seq![Seq::<char>::empty()]
    } else {
        let rest = split_lines(c.drop_last());
        if c.last() == '\n' {
            rest + seq![Seq::<char>::empty()]
        } else {
            rest.update(rest.len() - 1, rest.last().push(c.last()))
        }
    }
}

/// Splitting always yields at least one line.
pub proof fn lemma_split_lines_len(c: Seq<char>)
    ensures
        split_lines(c).len() >= 1,
    decreases c.len(),
{
    if c.len() > 0 {
        lemma_split_lines_len(c.drop_last());
    }
}

/// The references the given lines yield, in line order.
pub open spec fn scan_lines(lines: Seq<Seq<char>>) -> Seq<Seq<char>>
    decreases lines.len(),
{
    if lines.len() == 0 {
        Seq::empty()
    } else {
        scan_lines(lines.drop_last()) + match parse_include_spec(lines.last()) {
            Some(r) => seq![r],
            None => Seq::<Seq<char>>::empty(),
        }
    }
}

/// The header references of a whole source text: those of its lines, in
/// first-occurrence order, duplicates kept.
pub open spec fn cpp_dep_spec(c: Seq<char>) -> Seq<Seq<char>> {
    scan_lines(split_lines(c))
}

/// Scans a whole source text and returns the header references its
/// directives name, in first-occurrence order, duplicates kept. Malformed
/// directives yield nothing.
pub fn cpp_dep(content: &str) -> (r: Vec<String>)
    ensures
        r.deep_view() == cpp_dep_spec(content@),
{
    let n = content.unicode_len();
    let mut out: Vec<String> = Vec::new();
    let ghost mut done: Seq<Seq<char>> = Seq::empty();
    let mut start: usize = 0;
    let mut i: usize = 0;
    proof {
        assert(content@.subrange(0, 0) =~= Seq::<char>::empty());
        assert(split_lines(content@.subrange(0, 0)) =~= done + seq![content@.subrange(0, 0)]);
    }
    while i < n
        invariant
            n == content@.len(),
            0 <= start <= i <= n,
            split_lines(content@.subrange(0, i as int)) == done + seq![
                content@.subrange(start as int, i as int),
            ],
            out.deep_view() == scan_lines(done),
        decreases n - i,
    {
        let ghost pre = content@.subrange(0, i as int);
        let ghost cur = content@.subrange(start as int, i as int);
        proof {
            assert(content@.subrange(0, i + 1).drop_last() =~= pre);
            assert((done + seq![cur]).drop_last() =~= done);
            assert((done + seq![cur]).last() == cur);
        }
        let c = content.get_char(i);
        if c == '\n' {
            let line = content.substring_char(start, i);
            let parsed = parse_include(line);
            let ghost old_out = out.deep_view();
            match parsed {
                Some(dep) => {
                    out.push(dep);
                    proof {
                        assert(out.deep_view() =~= old_out + seq![dep@]);
                        assert(scan_lines(done + seq![cur]) == scan_lines(done) + seq![dep@]);
                    }
                },
                None => {
                    proof {
                        assert(scan_lines(done + seq![cur]) =~= scan_lines(done));
                    }
                },
            }
            proof {
                done = done + seq![cur];
                assert(split_lines(content@.subrange(0, i + 1)) =~= done + seq![
                    Seq::<char>::empty(),
                ]);
                assert(content@.subrange(i + 1, i + 1) =~= Seq::<char>::empty());
            }
            start = i + 1;
        } else {
            proof {
                let s = done + seq![cur];
                lemma_split_lines_len(pre);
                assert(split_lines(content@.subrange(0, i + 1)) == s.update(
                    s.len() - 1,
                    cur.push(content@[i as int]),
                ));
                assert(cur.push(content@[i as int]) =~= content@.subrange(
                    start as int,
                    i + 1,
                ));
                assert(s.update(s.len() - 1, content@.subrange(start as int, i + 1)) =~= done
                    + seq![content@.subrange(start as int, i + 1)]);
            }
        }
        i = i + 1;
    }
    let line = content.substring_char(start, n);
    let parsed = parse_include(line);
    let ghost old_out = out.deep_view();
    proof {
        assert(content@.subrange(0, n as int) =~= content@);
        assert((done + seq![content@.subrange(start as int, n as int)]).drop_last() =~= done);
    }
    match parsed {
        Some(dep) => {
            out.push(dep);
            proof {
                assert(out.deep_view() =~= old_out + seq![dep@]);
            }
        },
        None => {
            proof {
                assert(out.deep_view() =~= scan_lines(split_lines(content@)));
            }
        },
    }
    out
}

/// Every line that yields a reference gets that reference into the scan of
/// the whole: whatever the surrounding lines hold, a well-formed directive
/// is never dropped.
pub proof fn lemma_parsed_line_scanned(lines: Seq<Seq<char>>, i: int, r: Seq<char>)
    requires
        0 <= i < lines.len(),
        parse_include_spec(lines[i]) == Some(r),
    ensures
        scan_lines(lines).contains(r),
    decreases lines.len(),
{
    if i == lines.len() - 1 {
        let s = scan_lines(lines);
        assert(s[s.len() - 1] == r);
    } else {
        lemma_parsed_line_scanned(lines.drop_last(), i, r);
        let pre = scan_lines(lines.drop_last());
        let j = choose|j: int| 0 <= j < pre.len() && pre[j] == r;
        assert(scan_lines(lines)[j] == r);
    }
}

/// Any source text one of whose lines is a well-formed directive has that
/// line's reference in its scan.
pub proof fn lemma_line_reference_scanned(c: Seq<char>, i: int, r: Seq<char>)
    requires
        0 <= i < split_lines(c).len(),
        parse_include_spec(split_lines(c)[i]) == Some(r),
    ensures
        cpp_dep_spec(c).contains(r),
{
    lemma_parsed_line_scanned(split_lines(c), i, r);
}

/// A line that yields no reference — no directive at all, or a malformed
/// one — contributes nothing: the scan equals the scan without that line.
pub proof fn lemma_unparsed_line_ignored(lines: Seq<Seq<char>>, i: int)
    requires
        0 <= i < lines.len(),
        parse_include_spec(lines[i]) is None,
    ensures
        scan_lines(lines) == scan_lines(lines.remove(i)),
    decreases lines.len(),
{
    if i == lines.len() - 1 {
        assert(lines.remove(i) =~= lines.drop_last());
        assert(scan_lines(lines) =~= scan_lines(lines.drop_last()));
    } else {
        lemma_unparsed_line_ignored(lines.drop_last(), i);
        assert(lines.remove(i).drop_last() =~= lines.drop_last().remove(i));
        assert(lines.remove(i).last() == lines.last());
        assert(lines.remove(i).len() > 0);
    }
}

/// Splitting distributes over a newline joint.
pub proof fn lemma_split_lines_append(a: Seq<char>, b: Seq<char>)
    ensures
        split_lines(a + seq!['\n'] + b) == split_lines(a) + split_lines(b),
    decreases b.len(),
{
    if b.len() == 0 {
        assert(a + seq!['\n'] + b =~= a + seq!['\n']);
        assert((a + seq!['\n']).drop_last() =~= a);
        assert((a + seq!['\n']).last() == '\n');
        assert(split_lines(a + seq!['\n']) =~= split_lines(a) + split_lines(b));
    } else {
        lemma_split_lines_append(a, b.drop_last());
        let w = a + seq!['\n'] + b;
        assert(w.drop_last() =~= a + seq!['\n'] + b.drop_last());
        assert(w.last() == b.last());
        let s = split_lines(a) + split_lines(b.drop_last());
        lemma_split_lines_len(a);
        lemma_split_lines_len(b.drop_last());
        if b.last() == '\n' {
            assert(split_lines(w) == s + seq![Seq::<char>::empty()]);
            assert(s + seq![Seq::<char>::empty()] =~= split_lines(a) + (split_lines(b.drop_last())
                + seq![Seq::<char>::empty()]));
        } else {
            let t = split_lines(b.drop_last());
            assert(s.last() == t.last());
            assert(split_lines(w) == s.update(s.len() - 1, s.last().push(b.last())));
            assert(s.update(s.len() - 1, s.last().push(b.last())) =~= split_lines(a) + t.update(
                t.len() - 1,
                t.last().push(b.last()),
            ));
        }
    }
}

/// Scanning distributes over concatenation of line sequences.
pub proof fn lemma_scan_lines_append(l1: Seq<Seq<char>>, l2: Seq<Seq<char>>)
    ensures
        scan_lines(l1 + l2) == scan_lines(l1) + scan_lines(l2),
    decreases l2.len(),
{
    if l2.len() == 0 {
        assert(l1 + l2 =~= l1);
        assert(scan_lines(l1) + scan_lines(l2) =~= scan_lines(l1));
    } else {
        lemma_scan_lines_append(l1, l2.drop_last());
        assert((l1 + l2).drop_last() =~= l1 + l2.drop_last());
        assert((l1 + l2).last() == l2.last());
        assert(scan_lines(l1) + (scan_lines(l2.drop_last()) + match parse_include_spec(
            l2.last(),
        ) {
            Some(r) => seq![r],
            None => Seq::<Seq<char>>::empty(),
        }) =~= (scan_lines(l1) + scan_lines(l2.drop_last())) + match parse_include_spec(
            l2.last(),
        ) {
            Some(r) => seq![r],
            None => Seq::<Seq<char>>::empty(),
        });
    }
}

/// Scan order is stable: the scan of two texts joined by a newline is the
/// scan of the first followed by the scan of the second — references keep
/// first-occurrence order and never migrate across the joint.
pub proof fn lemma_scan_order_stable(a: Seq<char>, b: Seq<char>)
    ensures
        cpp_dep_spec(a + seq!['\n'] + b) == cpp_dep_spec(a) + cpp_dep_spec(b),
{
    lemma_split_lines_append(a, b);
    lemma_scan_lines_append(split_lines(a), split_lines(b));
}

} // verus!

