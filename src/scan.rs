use vstd::prelude::*;
use crate::registry::views;

verus! {

/// A parsed source file's top-level items: for a function, its name and, for
/// each of its attributes, the attribute's path where that path is a single
/// identifier; for any other item, nothing.
pub type ItemsView = Seq<Option<(Seq<char>, Seq<Option<Seq<char>>>)>>;

/// A parsed source file's top-level items, as `ItemsView` sees them.
pub type SourceItems = Vec<Option<(String, Vec<Option<String>>)>>;

/// The attribute that marks a function for collection.
pub open spec fn marker() -> Seq<char> {
    seq!['a', 'u', 't', 'o', '_', 'c', 'o', 'l', 'l', 'e', 'c', 't', '_', 'c', 'o', 'm', 'm', 'a', 'n', 'd']
}

/// The names of the marked functions among `items`, in order; a function is
/// named once, however many marker attributes it carries.
pub open spec fn marked_names(items: ItemsView) -> Seq<Seq<char>>
    decreases items.len(),
{
    if items.len() == 0 {
        Seq::empty()
    } else {
        let rest = marked_names(items.drop_last());
        match items.last() {
            Some((name, attrs)) => if attrs.contains(Some(marker())) {
                rest.push(name)
            } else {
                rest
            },
            None => rest,
        }
    }
}

/// The marked function names of several parsed source files, one file after
/// another; a file that did not parse (`None`) contributes none.
pub open spec fn marked_in_parsed(parsed: Seq<Option<ItemsView>>) -> Seq<Seq<char>>
    decreases parsed.len(),
{
    if parsed.len() == 0 {
        Seq::empty()
    } else {
        marked_in_parsed(parsed.drop_last()) + match parsed.last() {
            Some(items) => marked_names(items),
            None => Seq::empty(),
        }
    }
}

/// Relies on `syn::parse_file`: parses a source text and reports each
/// top-level item as a function's name and attribute paths, or as another
/// item; `None` where the text does not parse. Nothing is promised of the
/// outcome: which lexer proc-macro2 uses, and so what comes back, depends on
/// where the parse runs.
#[verifier::external_body]
pub(crate) fn parse_top_level_items(content: &str) -> Option<SourceItems> {
    match syn::parse_file(content) {
        Ok(file) => Some(file.items.iter().map(|item| match item {
            syn::Item::Fn(f) => Some((
                f.sig.ident.to_string(),
                f.attrs.iter().map(|a| a.path().get_ident().map(|i| i.to_string())).collect(),
            )),
            _ => None,
        }).collect()),
        Err(_) => None,
    }
}

/// The names of the marked functions among parsed top-level items.
pub fn collect_marked(items: &Vec<Option<(String, Vec<Option<String>>)>>) -> (r: Vec<String>)
    ensures
        views(r@) == marked_names(items.deep_view()),
{
    let ghost all = items.deep_view();
    let mut out: Vec<String> = Vec::new();
    let n = items.len();
    let mut i: usize = 0;
    proof {
        reveal_strlit("auto_collect_command");
    }
    let mark = String::from_str("auto_collect_command");
    assert(mark@ =~= marker());
    assert(all.take(0) =~= Seq::<Option<(Seq<char>, Seq<Option<Seq<char>>>)>>::empty());
    while i < n
        invariant
            n == items.len(),
            i <= n,
            all == items.deep_view(),
            mark@ == marker(),
            views(out@) == marked_names(all.take(i as int)),
        decreases n - i,
    {
        assert(all.take(i + 1).drop_last() =~= all.take(i as int));
        assert(all[i as int] == items@[i as int].deep_view());
        match &items[i] {
            Some(pair) => {
                let name = &pair.0;
                let attrs = &pair.1;
                let ghost av = attrs.deep_view();
                let m = attrs.len();
                let mut j: usize = 0;
                let mut found = false;
                while j < m && !found
                    invariant
                        m == attrs.len(),
                        j <= m,
                        av == attrs.deep_view(),
                        mark@ == marker(),
                        found ==> av.contains(Some(marker())),
                        !found ==> forall|k: int| 0 <= k < j ==> av[k] != Some(marker()),
                    decreases m - j,
                {
                    assert(av[j as int] == attrs@[j as int].deep_view());
                    match &attrs[j] {
                        Some(a) => {
                            if *a == mark {
                                found = true;
                                assert(av[j as int] == Some(marker()));
                            }
                        },
                        None => {},
                    }
                    j = j + 1;
                }
                let ghost before = views(out@);
                if found {
                    out.push(name.clone());
                    assert(views(out@) =~= before.push(name@));
                }
            },
            None => {},
        }
        i = i + 1;
    }
    assert(all.take(n as int) =~= all);
    out
}

/// The names of the marked functions of several parsed source files, in order.
pub fn marked_in_files(parsed: &Vec<Option<SourceItems>>) -> (r: Vec<String>)
    ensures
        views(r@) == marked_in_parsed(parsed.deep_view()),
{
    let ghost all = parsed.deep_view();
    let mut out: Vec<String> = Vec::new();
    let n = parsed.len();
    let mut i: usize = 0;
    assert(all.take(0) =~= Seq::<Option<ItemsView>>::empty());
    while i < n
        invariant
            n == parsed.len(),
            i <= n,
            all == parsed.deep_view(),
            views(out@) == marked_in_parsed(all.take(i as int)),
        decreases n - i,
    {
        assert(all.take(i + 1).drop_last() =~= all.take(i as int));
        assert(all[i as int] == parsed@[i as int].deep_view());
        let ghost before = views(out@);
        match &parsed[i] {
            Some(items) => {
                let mut found = collect_marked(items);
                let ghost add = views(found@);
                out.append(&mut found);
                assert(views(out@) =~= before + add);
            },
            None => {
                assert(before =~= before + Seq::<Seq<char>>::empty());
            },
        }
        i = i + 1;
    }
    assert(all.take(n as int) =~= all);
    out
}

} // verus!
