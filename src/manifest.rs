use vstd::prelude::*;
use crate::ident::{fold_hyphens, valid_ident};
use crate::registry::views;

verus! {

/// The characters that `char::is_whitespace` accepts (Unicode `White_Space`).
pub open spec fn is_space(c: char) -> bool {
    ('\u{9}' <= c && c <= '\u{d}') || c == ' ' || c == '\u{85}' || c == '\u{a0}' || c == '\u{1680}'
        || ('\u{2000}' <= c && c <= '\u{200a}') || c == '\u{2028}' || c == '\u{2029}' || c
        == '\u{202f}' || c == '\u{205f}' || c == '\u{3000}'
}

pub open spec fn trim_start(s: Seq<char>) -> Seq<char>
    decreases s.len(),
{
    if s.len() > 0 && is_space(s[0]) {
        trim_start(s.drop_first())
    } else {
        s
    }
}

pub open spec fn trim_end(s: Seq<char>) -> Seq<char>
    decreases s.len(),
{
    if s.len() > 0 && is_space(s.last()) {
        trim_end(s.drop_last())
    } else {
        s
    }
}

/// `s` without leading and trailing whitespace.
pub open spec fn trim(s: Seq<char>) -> Seq<char> {
    trim_end(trim_start(s))
}

/// The pieces of `s` between `'\n'` characters; never empty, and a text
/// that ends in `'\n'` ends in an empty piece.
pub open spec fn split_lines(s: Seq<char>) -> Seq<Seq<char>>
    decreases s.len(),
{
    if s.len() == 0 {
        seq![Seq::<char>::empty()]
    } else {
        let p = split_lines(s.drop_last());
        if s.last() == '\n' {
            p.push(Seq::<char>::empty())
        } else {
            p.update(p.len() - 1, p.last().push(s.last()))
        }
    }
}

/// The trimmed lines that are not blank, in order.
pub open spec fn nonblank_trimmed(lines: Seq<Seq<char>>) -> Seq<Seq<char>>
    decreases lines.len(),
{
    if lines.len() == 0 {
        lines
    } else {
        let rest = nonblank_trimmed(lines.drop_last());
        if trim(lines.last()).len() > 0 {
            rest.push(trim(lines.last()))
        } else {
            rest
        }
    }
}

/// The identifiers that a manifest text holds: its lines, trimmed, blank ones
/// skipped.
pub open spec fn manifest_entries(text: Seq<char>) -> Seq<Seq<char>> {
    nonblank_trimmed(split_lines(text))
}

/// A manifest text: each entry followed by `'\n'`.
pub open spec fn manifest_text(entries: Seq<Seq<char>>) -> Seq<char>
    decreases entries.len(),
{
    if entries.len() == 0 {
        Seq::<char>::empty()
    } else {
        manifest_text(entries.drop_last()) + entries.last() + seq!['\n']
    }
}

/// The member name that stands for the application's entry-point crate.
pub open spec fn app_crate_name() -> Seq<char> {
    seq!['s', 'r', 'c', '_', 't', 'a', 'u', 'r', 'i']
}

/// The crate name that qualifies the functions found in `member`: the
/// package's name for the entry-point crate, the member's own name otherwise,
/// hyphens folded to underscores in both cases.
pub open spec fn qualifier(member: Seq<char>, package: Seq<char>) -> Seq<char> {
    if fold_hyphens(member) == app_crate_name() {
        fold_hyphens(package)
    } else {
        fold_hyphens(member)
    }
}

/// `<qualifier>::<function>`.
pub open spec fn qualified(member: Seq<char>, package: Seq<char>, function: Seq<char>) -> Seq<char> {
    qualifier(member, package) + seq![':', ':'] + function
}

pub open spec fn qualify_all(member: Seq<char>, package: Seq<char>, functions: Seq<Seq<char>>) -> Seq<
    Seq<char>,
> {
    functions.map_values(|f: Seq<char>| qualified(member, package, f))
}

/// `char::is_whitespace`, on the characters it accepts.
pub fn is_space_char(c: char) -> (r: bool)
    ensures
        r == is_space(c),
{
    ('\u{9}' <= c && c <= '\u{d}') || c == ' ' || c == '\u{85}' || c == '\u{a0}' || c == '\u{1680}'
        || ('\u{2000}' <= c && c <= '\u{200a}') || c == '\u{2028}' || c == '\u{2029}' || c
        == '\u{202f}' || c == '\u{205f}' || c == '\u{3000}'
}

/// `s` with every `-` turned into `_`.
pub fn fold_hyphens_string(s: &str) -> (r: String)
    ensures
        r@ == fold_hyphens(s@),
{
    let n = s.unicode_len();
    let mut out = String::new();
    let mut i: usize = 0;
    while i < n
        invariant
            n == s@.len(),
            i <= n,
            out@ == fold_hyphens(s@.take(i as int)),
        decreases n - i,
    {
        proof {
            reveal_strlit("_");
        }
        if s.get_char(i) == '-' {
            out.append("_");
        } else {
            out.append(s.substring_char(i, i + 1));
        }
        assert(fold_hyphens(s@.take(i + 1)) =~= fold_hyphens(s@.take(i as int)) + fold_hyphens(
            s@.subrange(i as int, i + 1),
        ));
        i = i + 1;
    }
    assert(s@.take(n as int) =~= s@);
    out
}

proof fn lemma_trim_start_skip(s: Seq<char>, k: int)
    requires
        0 <= k <= s.len(),
        forall|j: int| 0 <= j < k ==> is_space(#[trigger] s[j]),
    ensures
        trim_start(s) == trim_start(s.skip(k)),
    decreases k,
{
    if k > 0 {
        assert(s.drop_first().skip(k - 1) =~= s.skip(k));
        lemma_trim_start_skip(s.drop_first(), k - 1);
    } else {
        assert(s.skip(0) =~= s);
    }
}

proof fn lemma_trim_end_take(s: Seq<char>, k: int)
    requires
        0 <= k <= s.len(),
        forall|j: int| k <= j < s.len() ==> is_space(#[trigger] s[j]),
    ensures
        trim_end(s) == trim_end(s.take(k)),
    decreases s.len() - k,
{
    if k < s.len() {
        assert(s.drop_last().take(k) =~= s.take(k));
        lemma_trim_end_take(s.drop_last(), k);
    } else {
        assert(s.take(k) =~= s);
    }
}

/// `s.subrange(a, b)` without leading and trailing whitespace.
fn trimmed_piece(s: &str, a: usize, b: usize) -> (r: String)
    requires
        a <= b <= s@.len(),
    ensures
        r@ == trim(s@.subrange(a as int, b as int)),
{
    let ghost x = s@.subrange(a as int, b as int);
    let mut lo: usize = a;
    while lo < b && is_space_char(s.get_char(lo))
        invariant
            a <= lo <= b <= s@.len(),
            x == s@.subrange(a as int, b as int),
            forall|j: int| a <= j < lo ==> is_space(#[trigger] s@[j]),
        decreases b - lo,
    {
        lo = lo + 1;
    }
    proof {
        let k = lo - a;
        assert forall|j: int| 0 <= j < k implies is_space(#[trigger] x[j]) by {
            assert(x[j] == s@[a + j]);
        }
        lemma_trim_start_skip(x, k);
        assert(x.skip(k) =~= s@.subrange(lo as int, b as int));
        if lo < b {
            assert(!is_space(x.skip(k)[0]));
        } else {
            assert(x.skip(k).len() == 0);
        }
    }
    let ghost y = s@.subrange(lo as int, b as int);
    assert(trim_start(x) == y);
    let mut hi: usize = b;
    while hi > lo && is_space_char(s.get_char(hi - 1))
        invariant
            lo <= hi <= b <= s@.len(),
            y == s@.subrange(lo as int, b as int),
            forall|j: int| hi <= j < b ==> is_space(#[trigger] s@[j]),
        decreases hi,
    {
        hi = hi - 1;
    }
    proof {
        let k = hi - lo;
        assert forall|j: int| k <= j < y.len() implies is_space(#[trigger] y[j]) by {
            assert(y[j] == s@[lo + j]);
        }
        lemma_trim_end_take(y, k);
        assert(y.take(k) =~= s@.subrange(lo as int, hi as int));
        if hi > lo {
            assert(!is_space(y.take(k).last()));
        }
    }
    String::from_str(s.substring_char(lo, hi))
}

/// The identifiers that a manifest text holds, one per line: each line is
/// trimmed and blank lines are skipped.
pub fn parse_manifest(text: &str) -> (r: Vec<String>)
    ensures
        views(r@) == manifest_entries(text@),
{
    let n = text.unicode_len();
    let mut out: Vec<String> = Vec::new();
    let ghost mut done: Seq<Seq<char>> = Seq::empty();
    let mut start: usize = 0;
    let mut i: usize = 0;
    assert(text@.take(0) =~= Seq::<char>::empty());
    assert(text@.subrange(0, 0) =~= Seq::<char>::empty());
    while i < n
        invariant
            n == text@.len(),
            start <= i <= n,
            split_lines(text@.take(i as int)) == done.push(text@.subrange(start as int, i as int)),
            views(out@) == nonblank_trimmed(done),
        decreases n - i,
    {
        let c = text.get_char(i);
        let ghost seg = text@.subrange(start as int, i as int);
        assert(text@.take(i + 1).drop_last() =~= text@.take(i as int));
        assert(text@.take(i + 1).last() == c);
        if c == '\n' {
            let t = trimmed_piece(text, start, i);
            let ghost before = out@;
            if t.unicode_len() > 0 {
                out.push(t);
                assert(views(out@) =~= views(before).push(t@));
            }
            proof {
                assert(done.push(seg).drop_last() =~= done);
                done = done.push(seg);
            }
            start = i + 1;
            assert(text@.subrange(start as int, i + 1) =~= Seq::<char>::empty());
        } else {
            assert(text@.subrange(start as int, i + 1) =~= seg.push(c));
            assert(done.push(seg).update(done.len() as int, seg.push(c)) =~= done.push(seg.push(c)));
        }
        i = i + 1;
    }
    assert(text@.take(n as int) =~= text@);
    let ghost seg = text@.subrange(start as int, n as int);
    let t = trimmed_piece(text, start, n);
    let ghost before = out@;
    if t.unicode_len() > 0 {
        out.push(t);
        assert(views(out@) =~= views(before).push(t@));
    }
    assert(done.push(seg).drop_last() =~= done);
    out
}

/// The manifest text for the functions found in `member`: one line
/// `<qualifier>::<function>` per function, in order.
pub fn render_manifest(member: &str, package: &str, functions: &Vec<String>) -> (r: String)
    ensures
        r@ == manifest_text(qualify_all(member@, package@, views(functions@))),
{
    let ghost entries = qualify_all(member@, package@, views(functions@));
    let folded_member = fold_hyphens_string(member);
    proof {
        reveal_strlit("src_tauri");
    }
    let app = String::from_str("src_tauri");
    assert(app@ =~= app_crate_name());
    let q = if folded_member == app {
        fold_hyphens_string(package)
    } else {
        folded_member
    };
    let mut out = String::new();
    let n = functions.len();
    let mut i: usize = 0;
    assert(entries.take(0) =~= Seq::<Seq<char>>::empty());
    while i < n
        invariant
            n == functions.len(),
            i <= n,
            q@ == qualifier(member@, package@),
            entries == qualify_all(member@, package@, views(functions@)),
            out@ == manifest_text(entries.take(i as int)),
        decreases n - i,
    {
        proof {
            reveal_strlit("::");
            reveal_strlit("\n");
        }
        assert(entries[i as int] == q@ + seq![':', ':'] + functions@[i as int]@);
        out.append(q.as_str());
        out.append("::");
        out.append(functions[i].as_str());
        out.append("\n");
        assert(entries.take(i + 1).drop_last() =~= entries.take(i as int));
        assert(out@ =~= manifest_text(entries.take(i + 1)));
        i = i + 1;
    }
    assert(entries.take(n as int) =~= entries);
    out
}

pub proof fn lemma_split_lines_nonempty(s: Seq<char>)
    ensures
        split_lines(s).len() >= 1,
    decreases s.len(),
{
    if s.len() > 0 {
        lemma_split_lines_nonempty(s.drop_last());
    }
}

/// Text without `'\n'` extends the last line.
pub proof fn lemma_split_lines_extend(t: Seq<char>, x: Seq<char>)
    requires
        forall|i: int| 0 <= i < x.len() ==> #[trigger] x[i] != '\n',
    ensures
        split_lines(t + x) == split_lines(t).update(
            split_lines(t).len() - 1,
            split_lines(t).last() + x,
        ),
    decreases x.len(),
{
    lemma_split_lines_nonempty(t);
    let p = split_lines(t);
    if x.len() == 0 {
        assert(t + x =~= t);
        assert(p.update(p.len() - 1, p.last() + x) =~= p);
    } else {
        let y = x.drop_last();
        lemma_split_lines_extend(t, y);
        assert((t + x).drop_last() =~= t + y);
        assert((t + x).last() == x.last());
        let q = split_lines(t + y);
        assert(q.len() == p.len());
        assert(q.last() == p.last() + y);
        assert((p.last() + y).push(x.last()) =~= p.last() + x);
        assert(q.update(q.len() - 1, q.last().push(x.last())) =~= p.update(
            p.len() - 1,
            p.last() + x,
        ));
    }
}

/// A manifest text splits into its entries and a final empty piece.
pub proof fn lemma_split_manifest_text(entries: Seq<Seq<char>>)
    requires
        forall|k: int, i: int|
            0 <= k < entries.len() && 0 <= i < entries[k].len() ==> #[trigger] entries[k][i]
                != '\n',
    ensures
        split_lines(manifest_text(entries)) == entries.push(Seq::<char>::empty()),
    decreases entries.len(),
{
    if entries.len() == 0 {
        assert(split_lines(manifest_text(entries)) =~= entries.push(Seq::<char>::empty()));
    } else {
        let rest = entries.drop_last();
        let e = entries.last();
        lemma_split_manifest_text(rest);
        let m = manifest_text(rest);
        let full = manifest_text(entries);
        assert(full.drop_last() =~= m + e);
        assert forall|i: int| 0 <= i < e.len() implies #[trigger] e[i] != '\n' by {
            assert(e[i] == entries[entries.len() - 1][i]);
        }
        lemma_split_lines_extend(m, e);
        assert(rest.push(Seq::<char>::empty()).update(rest.len() as int, Seq::<char>::empty() + e)
            =~= entries);
    }
}

/// An identifier has nothing to trim.
pub proof fn lemma_trim_ident(e: Seq<char>)
    requires
        valid_ident(e),
    ensures
        trim(e) == e,
{
    assert(!is_space(e[0]));
    assert(trim_start(e) == e);
    assert(!is_space(e.last()));
}

/// Lines that are identifiers come back unchanged, and a final empty line
/// adds nothing.
pub proof fn lemma_nonblank_identifiers(entries: Seq<Seq<char>>)
    requires
        forall|k: int| 0 <= k < entries.len() ==> valid_ident(#[trigger] entries[k]),
    ensures
        nonblank_trimmed(entries.push(Seq::<char>::empty())) == entries,
        nonblank_trimmed(entries) == entries,
    decreases entries.len(),
{
    assert(entries.push(Seq::<char>::empty()).drop_last() =~= entries);
    assert(trim(Seq::<char>::empty()) == Seq::<char>::empty());
    if entries.len() > 0 {
        let rest = entries.drop_last();
        lemma_nonblank_identifiers(rest);
        lemma_trim_ident(entries.last());
        assert(rest.push(entries.last()) =~= entries);
    }
    let padded = entries.push(Seq::<char>::empty());
    assert(padded.last() == Seq::<char>::empty());
    assert(trim(padded.last()).len() == 0);
    assert(nonblank_trimmed(padded) == nonblank_trimmed(padded.drop_last()));
}

/// Reading back a manifest text whose entries are identifiers gives exactly
/// those entries, in order.
pub proof fn lemma_manifest_entries_of_text(entries: Seq<Seq<char>>)
    requires
        forall|k: int| 0 <= k < entries.len() ==> valid_ident(#[trigger] entries[k]),
    ensures
        manifest_entries(manifest_text(entries)) == entries,
{
    assert forall|k: int, i: int|
        0 <= k < entries.len() && 0 <= i < entries[k].len() implies #[trigger] entries[k][i]
        != '\n' by {
        assert(valid_ident(entries[k]));
    }
    lemma_split_manifest_text(entries);
    lemma_nonblank_identifiers(entries);
}

} // verus!
