use vstd::prelude::*;
use crate::ident::{
    fold_hyphens, is_valid_ident, lemma_lex_asymmetric, lemma_lex_irreflexive, lemma_lex_total, lemma_lex_transitive, lex_less, lex_lt,
    strictly_sorted, valid_ident,
};

verus! {

/// The character views of a sequence of strings.
pub open spec fn views(v: Seq<String>) -> Seq<Seq<char>> {
    v.map_values(|s: String| s@)
}

pub open spec fn has_prefix(s: Seq<char>, p: Seq<char>) -> bool {
    p.len() <= s.len() && s.subrange(0, p.len() as int) == p
}

/// A `::` separator starts at position `k` of `id`.
pub open spec fn separator_at(id: Seq<char>, k: int) -> bool {
    0 <= k && k + 1 < id.len() && id[k] == ':' && id[k + 1] == ':'
}

/// The crate part of `id`, the text before its first `::`, is the requesting
/// crate `calling` with hyphens folded to underscores.
pub open spec fn owned_by(calling: Seq<char>, id: Seq<char>) -> bool {
    &&& has_prefix(id, fold_hyphens(calling) + seq![':', ':'])
    &&& forall|j: int| 0 <= j < calling.len() ==> !#[trigger] separator_at(id, j)
}

/// One identifier as the requesting crate `calling` sees it: without its crate
/// part and the first `::` when that crate part names `calling`, unchanged
/// otherwise.
pub open spec fn normalize_one(calling: Seq<char>, id: Seq<char>) -> Seq<char> {
    if owned_by(calling, id) {
        id.skip(calling.len() as int + 2)
    } else {
        id
    }
}

pub open spec fn normalize_all(raw: Seq<Seq<char>>, calling: Seq<char>) -> Seq<Seq<char>> {
    raw.map_values(|id: Seq<char>| normalize_one(calling, id))
}

pub open spec fn all_valid(s: Seq<Seq<char>>) -> bool {
    forall|i: int| 0 <= i < s.len() ==> valid_ident(#[trigger] s[i])
}

/// Index of the first identifier that fails the grammar.
pub open spec fn is_first_invalid(s: Seq<Seq<char>>, i: int) -> bool {
    &&& 0 <= i < s.len()
    &&& !valid_ident(s[i])
    &&& forall|j: int| 0 <= j < i ==> valid_ident(#[trigger] s[j])
}

/// Why a list of identifiers could not become a registry.
#[derive(Debug)]
pub enum NormalizeError {
    /// The raw identifier whose normalized form breaks `[A-Za-z0-9_:]+`.
    InvalidCommandName(String),
}

/// Is the crate part of `id` (before its first `::`) the crate `calling`?
pub fn is_owned_by(calling: &str, id: &str) -> (r: bool)
    ensures
        r == owned_by(calling@, id@),
{
    let n = id.unicode_len();
    let m = calling.unicode_len();
    let ghost p = fold_hyphens(calling@) + seq![':', ':'];
    if n < 2 || n - 2 < m {
        return false;
    }
    let mut i: usize = 0;
    while i < m
        invariant
            n == id@.len(),
            m == calling@.len(),
            p == fold_hyphens(calling@) + seq![':', ':'],
            m + 2 <= n,
            i <= m,
            forall|k: int| 0 <= k < i ==> #[trigger] id@[k] == p[k],
            forall|k: int| 0 <= k < i ==> !#[trigger] separator_at(id@, k),
        decreases m - i,
    {
        let a = id.get_char(i);
        let b = calling.get_char(i);
        let fb = if b == '-' { '_' } else { b };
        if a != fb {
            assert(id@.subrange(0, p.len() as int)[i as int] != p[i as int]);
            return false;
        }
        if a == ':' && id.get_char(i + 1) == ':' {
            assert(separator_at(id@, i as int));
            return false;
        }
        i = i + 1;
    }
    if id.get_char(m) != ':' || id.get_char(m + 1) != ':' {
        assert(id@.subrange(0, p.len() as int)[m as int] != p[m as int] || id@.subrange(
            0,
            p.len() as int,
        )[m + 1] != p[m + 1]);
        return false;
    }
    assert(id@.subrange(0, p.len() as int) =~= p);
    true
}

/// The normalized form of one identifier for the requesting crate `calling`.
pub fn normalize_command(id: &str, calling: &str) -> (r: String)
    ensures
        r@ == normalize_one(calling@, id@),
{
    if is_owned_by(calling, id) {
        let m = calling.unicode_len();
        let n = id.unicode_len();
        String::from_str(id.substring_char(m + 2, n))
    } else {
        String::from_str(id)
    }
}

/// Adds `x` to a strictly sorted list, keeping it strictly sorted; a value
/// already present is not added twice.
pub fn insert_sorted(v: &mut Vec<String>, x: String)
    requires
        strictly_sorted(views(old(v)@)),
    ensures
        strictly_sorted(views(final(v)@)),
        views(final(v)@).to_set() == views(old(v)@).to_set().insert(x@),
        final(v)@.len() <= old(v)@.len() + 1,
{
    let ghost old_views = views(v@);
    let n = v.len();
    let mut i: usize = 0;
    while i < n && lex_less(v[i].as_str(), x.as_str())
        invariant
            n == v.len(),
            i <= n,
            views(v@) == old_views,
            forall|k: int| 0 <= k < i ==> lex_lt(#[trigger] old_views[k], x@),
        decreases n - i,
    {
        i = i + 1;
    }
    if i < n && v[i] == x {
        assert(old_views[i as int] == x@);
        assert(views(v@).to_set().insert(x@) =~= views(v@).to_set());
        return;
    }
    proof {
        if i < n {
            lemma_lex_total(old_views[i as int], x@);
            assert(lex_lt(x@, old_views[i as int]));
            assert forall|k: int| i <= k < n implies lex_lt(x@, #[trigger] old_views[k]) by {
                if k > i {
                    lemma_lex_transitive(x@, old_views[i as int], old_views[k]);
                }
            }
        }
    }
    v.insert(i, x);
    let ghost new_views = views(v@);
    assert(new_views =~= old_views.insert(i as int, x@));
    assert forall|a: int, b: int| 0 <= a < b < new_views.len() implies lex_lt(
        #[trigger] new_views[a],
        #[trigger] new_views[b],
    ) by {
        if b < i {
        } else if b == i {
        } else if a < i {
            lemma_lex_transitive(new_views[a], x@, new_views[b]);
        } else if a == i {
        } else {
            assert(new_views[a] == old_views[a - 1]);
            assert(new_views[b] == old_views[b - 1]);
        }
    }
    assert forall|s: Seq<char>| #[trigger] new_views.contains(s) == old_views.to_set().insert(
        x@,
    ).contains(s) by {
        if new_views.contains(s) {
            let k = choose|k: int| 0 <= k < new_views.len() && new_views[k] == s;
            if k < i {
                assert(old_views[k] == s);
            } else if k > i {
                assert(old_views[k - 1] == s);
            }
        }
        if old_views.contains(s) {
            let k = choose|k: int| 0 <= k < old_views.len() && old_views[k] == s;
            if k < i {
                assert(new_views[k] == s);
            } else {
                assert(new_views[k + 1] == s);
            }
        }
        if s == x@ {
            assert(new_views[i as int] == s);
        }
    }
    assert(new_views.to_set() =~= old_views.to_set().insert(x@));
}

/// Folds raw manifest identifiers into the registry seen by the requesting
/// crate `calling_crate`.
///
/// An identifier whose crate part (the text before its first `::`) is
/// `calling_crate`, hyphens folded to underscores, loses that part and the
/// `::`; every other identifier stays as it is. Each result must match
/// `[A-Za-z0-9_:]+`. The registry is duplicate-free and in ascending
/// lexicographic order. The first identifier that breaks the grammar makes the
/// whole call fail, and no partial registry is returned.
pub fn normalize_commands(raw_commands: Vec<String>, calling_crate: String) -> (r: Result<
    Vec<String>,
    NormalizeError,
>)
    ensures
        r is Ok <==> all_valid(normalize_all(views(raw_commands@), calling_crate@)),
        r matches Ok(v) ==> strictly_sorted(views(v@)) && views(v@).to_set() == normalize_all(
            views(raw_commands@),
            calling_crate@,
        ).to_set() && v@.len() <= raw_commands@.len(),
        r matches Err(NormalizeError::InvalidCommandName(id)) ==> exists|i: int|
            is_first_invalid(normalize_all(views(raw_commands@), calling_crate@), i) && id@
                == raw_commands@[i]@,
{
    let ghost raw = views(raw_commands@);
    let ghost calling = calling_crate@;
    let n = raw_commands.len();
    let mut out: Vec<String> = Vec::new();
    let mut i: usize = 0;
    while i < n
        invariant
            n == raw_commands.len(),
            raw == views(raw_commands@),
            calling == calling_crate@,
            i <= n,
            strictly_sorted(views(out@)),
            out@.len() <= i,
            views(out@).to_set() == normalize_all(raw.take(i as int), calling).to_set(),
            all_valid(normalize_all(raw.take(i as int), calling)),
        decreases n - i,
    {
        let ghost before = normalize_all(raw.take(i as int), calling);
        let ghost after = normalize_all(raw.take(i + 1), calling);
        assert(after =~= before.push(normalize_one(calling, raw[i as int])));
        let id = normalize_command(raw_commands[i].as_str(), calling_crate.as_str());
        if !is_valid_ident(id.as_str()) {
            proof {
                let all = normalize_all(raw, calling);
                assert forall|j: int| 0 <= j < i implies valid_ident(#[trigger] all[j]) by {
                    assert(all[j] == before[j]);
                }
                assert(is_first_invalid(all, i as int));
            }
            return Err(NormalizeError::InvalidCommandName(raw_commands[i].clone()));
        }
        insert_sorted(&mut out, id);
        proof {
            assert(before.to_set().insert(id@) =~= after.to_set()) by {
                assert forall|s: Seq<char>| #[trigger] after.contains(s) implies before.to_set().insert(id@).contains(s) by {
                    let k = choose|k: int| 0 <= k < after.len() && after[k] == s;
                    if k < i {
                        assert(before[k] == s);
                    }
                }
                assert forall|s: Seq<char>| #[trigger] before.contains(s) implies after.contains(s) by {
                    let k = choose|k: int| 0 <= k < before.len() && before[k] == s;
                    assert(after[k] == s);
                }
                assert(after[i as int] == id@);
            }
        }
        i = i + 1;
    }
    assert(raw.take(n as int) =~= raw);
    Ok(out)
}

/// Normalizing a registry once more, for the same requesting crate, gives back
/// the same set of identifiers. This holds unless stripping would apply a
/// second time: when an entry's crate part still names the requesting crate
/// (as `pkg::pkg::cmd` becomes `pkg::cmd` for `pkg`).
pub proof fn lemma_normalize_idempotent(raw: Seq<Seq<char>>, registry: Seq<Seq<char>>, calling: Seq<char>)
    requires
        all_valid(normalize_all(raw, calling)),
        registry.to_set() == normalize_all(raw, calling).to_set(),
        forall|i: int| 0 <= i < registry.len() ==> !owned_by(calling, #[trigger] registry[i]),
    ensures
        all_valid(normalize_all(registry, calling)),
        normalize_all(registry, calling).to_set() == registry.to_set(),
{
    let first = normalize_all(raw, calling);
    let again = normalize_all(registry, calling);
    assert(again =~= registry);
    assert forall|i: int| 0 <= i < again.len() implies valid_ident(#[trigger] again[i]) by {
        assert(registry.to_set().contains(registry[i]));
        assert(first.contains(registry[i]));
    }
}

/// A registry's order is fixed by its contents: two strictly sorted lists that
/// hold the same identifiers are equal. So the same manifests and the same
/// requesting crate always give the same registry, whatever order the
/// manifests were read in.
pub proof fn lemma_sorted_registry_unique(a: Seq<Seq<char>>, b: Seq<Seq<char>>)
    requires
        strictly_sorted(a),
        strictly_sorted(b),
        a.to_set() == b.to_set(),
    ensures
        a == b,
    decreases a.len(),
{
    if a.len() == 0 {
        if b.len() > 0 {
            assert(b.to_set().contains(b[0]));
        }
        assert(a =~= b);
    } else {
        assert(a.to_set().contains(a[0]));
        assert(b.contains(a[0]));
        let j = choose|j: int| 0 <= j < b.len() && b[j] == a[0];
        assert(b.to_set().contains(b[0]));
        assert(a.contains(b[0]));
        let i = choose|i: int| 0 <= i < a.len() && a[i] == b[0];
        if j > 0 {
            assert(lex_lt(b[0], b[j]));
            if i > 0 {
                assert(lex_lt(a[0], a[i]));
                lemma_lex_asymmetric(a[0], a[i]);
            } else {
                lemma_lex_irreflexive(a[0]);
            }
        }
        assert(a[0] == b[0]);
        let ta = a.drop_first();
        let tb = b.drop_first();
        assert forall|x: Seq<char>| ta.contains(x) implies tb.contains(x) by {
            let k = choose|k: int| 0 <= k < ta.len() && ta[k] == x;
            assert(b.to_set().contains(x)) by {
                assert(a.contains(x)) by { assert(a[k + 1] == x); }
            }
            let m = choose|m: int| 0 <= m < b.len() && b[m] == x;
            if m == 0 {
                assert(lex_lt(a[0], a[k + 1]));
                lemma_lex_irreflexive(x);
            }
            assert(tb[m - 1] == x);
        }
        assert forall|x: Seq<char>| tb.contains(x) implies ta.contains(x) by {
            let k = choose|k: int| 0 <= k < tb.len() && tb[k] == x;
            assert(a.to_set().contains(x)) by {
                assert(b.contains(x)) by { assert(b[k + 1] == x); }
            }
            let m = choose|m: int| 0 <= m < a.len() && a[m] == x;
            if m == 0 {
                assert(lex_lt(b[0], b[k + 1]));
                lemma_lex_irreflexive(x);
            }
            assert(ta[m - 1] == x);
        }
        assert(ta.to_set() =~= tb.to_set());
        lemma_sorted_registry_unique(ta, tb);
        assert(a =~= seq![a[0]] + ta);
        assert(b =~= seq![b[0]] + tb);
    }
}

/// For a requesting crate whose name holds no `:`, stripping is a plain
/// prefix test: an identifier that starts with `<crate>::` (hyphens in the
/// crate name folded) loses that prefix, and every other identifier stays as
/// it is.
pub proof fn lemma_strip_plain_prefix(calling: Seq<char>, id: Seq<char>)
    requires
        forall|i: int| 0 <= i < calling.len() ==> #[trigger] calling[i] != ':',
    ensures
        normalize_one(calling, id) == if has_prefix(id, fold_hyphens(calling) + seq![':', ':']) {
            id.skip(calling.len() as int + 2)
        } else {
            id
        },
{
    let p = fold_hyphens(calling) + seq![':', ':'];
    if has_prefix(id, p) {
        assert forall|j: int| 0 <= j < calling.len() implies !#[trigger] separator_at(id, j) by {
            assert(id[j] == id.subrange(0, p.len() as int)[j]);
            assert(p[j] == fold_hyphens(calling)[j]);
            assert(calling[j] != ':');
        }
    }
}

} // verus!
