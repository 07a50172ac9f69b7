use vstd::prelude::*;
use crate::manifest::{
    lemma_manifest_entries_of_text, manifest_entries, manifest_text, parse_manifest, qualifier,
    qualify_all, render_manifest,
};
use crate::ident::{fold_hyphens, is_name_char, strictly_sorted, valid_ident};
use crate::registry::{
    all_valid, is_first_invalid, lemma_sorted_registry_unique, normalize_all, normalize_commands,
    owned_by, separator_at, views, NormalizeError,
};
use crate::scan::{marked_in_files, marked_in_parsed, parse_top_level_items, ItemsView, SourceItems};

verus! {

/// The entries of several manifest texts, one text after another.
pub open spec fn entries_of_all(texts: Seq<Seq<char>>) -> Seq<Seq<char>>
    decreases texts.len(),
{
    if texts.len() == 0 {
        Seq::empty()
    } else {
        entries_of_all(texts.drop_last()) + manifest_entries(texts.last())
    }
}

/// The manifest text of one member: the marked functions of its parsed source
/// files, qualified for that member.
pub open spec fn member_text(member: Seq<char>, package: Seq<char>, parsed: Seq<Option<ItemsView>>) -> Seq<char> {
    manifest_text(qualify_all(member, package, marked_in_parsed(parsed)))
}

/// Scan phase for one member, from its parsed source files (`None` for a file
/// that did not parse): renders the member's manifest text.
pub fn member_manifest_from_items(member: &str, package: &str, parsed: &Vec<Option<SourceItems>>) -> (r: String)
    ensures
        r@ == member_text(member@, package@, parsed.deep_view()),
{
    let functions = marked_in_files(parsed);
    render_manifest(member, package, &functions)
}

/// Scan phase for one member, from its source texts: parses each one and
/// renders the member's manifest text from what the parser reported, one
/// parse outcome per source text.
pub fn member_manifest(member: &str, package: &str, sources: &Vec<String>) -> (r: String)
    ensures
        exists|parsed: Seq<Option<ItemsView>>|
            parsed.len() == sources@.len() && r@ == #[trigger] member_text(member@, package@, parsed),
{
    let mut parsed: Vec<Option<SourceItems>> = Vec::new();
    let n = sources.len();
    let mut i: usize = 0;
    while i < n
        invariant
            n == sources.len(),
            i <= n,
            parsed@.len() == i,
        decreases n - i,
    {
        parsed.push(parse_top_level_items(sources[i].as_str()));
        i = i + 1;
    }
    let r = member_manifest_from_items(member, package, &parsed);
    assert(parsed.deep_view().len() == sources@.len());
    r
}

/// Generation phase: reads the identifiers of every manifest text and folds
/// them into the registry seen by `calling_crate` (see `normalize_commands`).
pub fn collect_commands(manifests: Vec<String>, calling_crate: String) -> (r: Result<
    Vec<String>,
    NormalizeError,
>)
    ensures
        r is Ok <==> all_valid(normalize_all(entries_of_all(views(manifests@)), calling_crate@)),
        r matches Ok(v) ==> strictly_sorted(views(v@)) && views(v@).to_set() == normalize_all(
            entries_of_all(views(manifests@)),
            calling_crate@,
        ).to_set() && v@.len() <= entries_of_all(views(manifests@)).len(),
        r matches Err(NormalizeError::InvalidCommandName(id)) ==> exists|i: int|
            is_first_invalid(normalize_all(entries_of_all(views(manifests@)), calling_crate@), i)
                && id@ == entries_of_all(views(manifests@))[i],
{
    let ghost all = views(manifests@);
    let mut raw: Vec<String> = Vec::new();
    let n = manifests.len();
    let mut i: usize = 0;
    assert(all.take(0) =~= Seq::<Seq<char>>::empty());
    while i < n
        invariant
            n == manifests.len(),
            i <= n,
            all == views(manifests@),
            views(raw@) == entries_of_all(all.take(i as int)),
        decreases n - i,
    {
        let mut lines = parse_manifest(manifests[i].as_str());
        let ghost before = views(raw@);
        let ghost add = views(lines@);
        raw.append(&mut lines);
        assert(views(raw@) =~= before + add);
        assert(all.take(i + 1).drop_last() =~= all.take(i as int));
        i = i + 1;
    }
    assert(all.take(n as int) =~= all);
    normalize_commands(raw, calling_crate)
}

/// Writing a member's manifest and reading it back, with the crate that owns
/// the member's identifiers as the requesting crate, gives back exactly the
/// functions written: the same identifiers, in the same order, so the
/// registry holds exactly their set.
pub proof fn lemma_manifest_round_trip(
    member: Seq<char>,
    package: Seq<char>,
    calling: Seq<char>,
    functions: Seq<Seq<char>>,
)
    requires
        all_valid(functions),
        qualifier(member, package).len() > 0,
        forall|i: int| 0 <= i < calling.len() ==> is_name_char(#[trigger] fold_hyphens(calling)[i]),
        qualifier(member, package) == fold_hyphens(calling),
    ensures
        normalize_all(
            entries_of_all(seq![manifest_text(qualify_all(member, package, functions))]),
            calling,
        ) == functions,
{
    let q = fold_hyphens(calling);
    let entries = qualify_all(member, package, functions);
    let text = manifest_text(entries);
    assert forall|k: int| 0 <= k < entries.len() implies valid_ident(#[trigger] entries[k]) by {
        let e = entries[k];
        let f = functions[k];
        assert(e == q + seq![':', ':'] + f);
        assert(valid_ident(f));
        assert forall|i: int| 0 <= i < e.len() implies crate::ident::is_ident_char(
            #[trigger] e[i],
        ) by {
            if i < q.len() {
                assert(e[i] == q[i]);
            } else if i >= q.len() + 2 {
                assert(e[i] == f[i - q.len() - 2]);
            }
        }
    }
    lemma_manifest_entries_of_text(entries);
    assert(seq![text].drop_last() =~= Seq::<Seq<char>>::empty());
    assert(seq![text].last() == text);
    assert(entries_of_all(Seq::<Seq<char>>::empty()) == Seq::<Seq<char>>::empty());
    assert(entries_of_all(seq![text]) == entries_of_all(seq![text].drop_last()) + manifest_entries(
        text,
    ));
    assert(entries_of_all(seq![text]) =~= manifest_entries(text));
    let back = normalize_all(entries, calling);
    assert forall|k: int| 0 <= k < functions.len() implies #[trigger] back[k] == functions[k] by {
        let e = entries[k];
        let p = q + seq![':', ':'];
        assert(e == q + seq![':', ':'] + functions[k]);
        assert(e.subrange(0, p.len() as int) =~= p);
        assert forall|j: int| 0 <= j < calling.len() implies !#[trigger] separator_at(e, j) by {
            assert(e[j] == q[j]);
            assert(is_name_char(q[j]));
        }
        assert(owned_by(calling, e));
        assert(e.skip(calling.len() as int + 2) =~= functions[k]);
    }
    assert(back =~= functions);
}

/// A member whose parsed sources hold no marked function gets an empty manifest
/// text, and manifest texts that are all empty give an empty registry, not
/// an error.
pub proof fn lemma_empty_scan(
    member: Seq<char>,
    package: Seq<char>,
    parsed: Seq<Option<ItemsView>>,
    manifests: Seq<Seq<char>>,
    calling: Seq<char>,
)
    requires
        marked_in_parsed(parsed).len() == 0,
        forall|i: int| 0 <= i < manifests.len() ==> (#[trigger] manifests[i]).len() == 0,
    ensures
        member_text(member, package, parsed).len() == 0,
        normalize_all(entries_of_all(manifests), calling).len() == 0,
        all_valid(normalize_all(entries_of_all(manifests), calling)),
    decreases manifests.len(),
{
    assert(qualify_all(member, package, marked_in_parsed(parsed)).len() == 0);
    if manifests.len() > 0 {
        let rest = manifests.drop_last();
        lemma_empty_scan(member, package, parsed, rest, calling);
        lemma_manifest_entries_of_text(Seq::empty());
        assert(manifests.last() =~= manifest_text(Seq::<Seq<char>>::empty()));
    }
}

/// Normalization sees only which identifiers there are: inputs with the same
/// set of identifiers give the same set of normalized identifiers.
pub proof fn lemma_normalize_set(a: Seq<Seq<char>>, b: Seq<Seq<char>>, calling: Seq<char>)
    requires
        a.to_set() == b.to_set(),
    ensures
        normalize_all(a, calling).to_set() == normalize_all(b, calling).to_set(),
        all_valid(normalize_all(a, calling)) == all_valid(normalize_all(b, calling)),
{
    let na = normalize_all(a, calling);
    let nb = normalize_all(b, calling);
    assert forall|x: Seq<char>| na.contains(x) implies nb.contains(x) by {
        let k = choose|k: int| 0 <= k < na.len() && na[k] == x;
        assert(a.to_set().contains(a[k]));
        let m = choose|m: int| 0 <= m < b.len() && b[m] == a[k];
        assert(nb[m] == x);
    }
    assert forall|x: Seq<char>| nb.contains(x) implies na.contains(x) by {
        let k = choose|k: int| 0 <= k < nb.len() && nb[k] == x;
        assert(b.to_set().contains(b[k]));
        let m = choose|m: int| 0 <= m < a.len() && a[m] == b[k];
        assert(na[m] == x);
    }
    assert(na.to_set() =~= nb.to_set());
    if all_valid(na) {
        assert forall|i: int| 0 <= i < nb.len() implies valid_ident(#[trigger] nb[i]) by {
            assert(nb.contains(nb[i]));
            assert(na.contains(nb[i]));
        }
    }
    if all_valid(nb) {
        assert forall|i: int| 0 <= i < na.len() implies valid_ident(#[trigger] na[i]) by {
            assert(na.contains(na[i]));
            assert(nb.contains(na[i]));
        }
    }
}

/// The registry does not depend on how the identifiers lie on disk: two
/// manifest directories that hold the same identifiers, in any order and
/// spread over files in any way, give the same outcome, and where it is a
/// registry, the same registry, element for element.
pub proof fn lemma_registry_independent_of_layout(
    first: Seq<Seq<char>>,
    second: Seq<Seq<char>>,
    calling: Seq<char>,
    r1: Seq<Seq<char>>,
    r2: Seq<Seq<char>>,
)
    requires
        entries_of_all(first).to_set() == entries_of_all(second).to_set(),
        strictly_sorted(r1),
        r1.to_set() == normalize_all(entries_of_all(first), calling).to_set(),
        strictly_sorted(r2),
        r2.to_set() == normalize_all(entries_of_all(second), calling).to_set(),
    ensures
        all_valid(normalize_all(entries_of_all(first), calling)) == all_valid(
            normalize_all(entries_of_all(second), calling),
        ),
        r1 == r2,
{
    lemma_normalize_set(entries_of_all(first), entries_of_all(second), calling);
    lemma_sorted_registry_unique(r1, r2);
}

} // verus!
