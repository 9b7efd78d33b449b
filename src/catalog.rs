//! The application list: built from descriptor texts, filtered by a search term.
use vstd::prelude::*;
use crate::text::chars_of;
use crate::command::string_views;
use crate::entry::{AppInfo, parsed, parse_desktop_entry, opt_view};

verus! {

/// The records of the descriptors that parse, in the order of the texts.
pub open spec fn collected(texts: Seq<Seq<char>>, locales: Seq<Seq<char>>) -> Seq<
    (Seq<char>, Seq<char>, Option<Seq<char>>),
>
    decreases texts.len(),
{
    if texts.len() == 0 {
        seq![]
    } else {
        let before = collected(texts.drop_last(), locales);
        match parsed(texts.last(), locales) {
            Some(a) => before.push(a),
            None => before,
        }
    }
}

pub open spec fn app_views(v: Seq<AppInfo>) -> Seq<(Seq<char>, Seq<char>, Option<Seq<char>>)> {
    v.map_values(|a: AppInfo| a@)
}

impl AppInfo {
    /// A copy of the record.
    pub fn duplicate(&self) -> (r: AppInfo)
        ensures
            r@ == self@,
    {
        let icon = match &self.icon {
            Some(s) => Some(s.clone()),
            None => None,
        };
        AppInfo { name: self.name.clone(), command: self.command.clone(), icon }
    }
}

/// Parses every descriptor text and keeps the records of those that parse;
/// the others are dropped. No texts give an empty list.
pub fn collect_applications(texts: &Vec<String>, locales: &[String]) -> (r: Vec<AppInfo>)
    ensures
        app_views(r@) == collected(string_views(texts@), string_views(locales@)),
{
    let mut r: Vec<AppInfo> = Vec::new();
    let mut i: usize = 0;
    while i < texts.len()
        invariant
            i <= texts.len(),
            app_views(r@) == collected(
                string_views(texts@).take(i as int),
                string_views(locales@),
            ),
        decreases texts.len() - i,
    {
        assert(string_views(texts@).take(i + 1).drop_last() =~= string_views(texts@).take(
            i as int,
        ));
        assert(string_views(texts@).take(i + 1).last() == texts@[i as int]@);
        match parse_desktop_entry(texts[i].as_str(), locales) {
            Ok(a) => {
                let ghost pre = r@;
                r.push(a);
                assert(app_views(r@) =~= app_views(pre).push(a@));
            },
            Err(_) => {},
        }
        i = i + 1;
    }
    assert(string_views(texts@).take(texts.len() as int) =~= string_views(texts@));
    r
}

/// What `str::to_lowercase` makes of a text.
pub uninterp spec fn lower_of(s: Seq<char>) -> Seq<char>;

/// Relies on `str::to_lowercase`: the result depends on the characters alone,
/// and an empty text stays empty.
#[verifier::external_body]
fn lowercase(s: &str) -> (r: String)
    ensures
        r@ == lower_of(s@),
        s@.len() == 0 ==> r@.len() == 0,
{
    s.to_lowercase()
}

/// `needle` occurs in `hay` as a contiguous run.
pub open spec fn contains(hay: Seq<char>, needle: Seq<char>) -> bool {
    exists|i: int|
        0 <= i <= hay.len() - needle.len() && #[trigger] hay.subrange(i, i + needle.len())
            == needle
}

/// An application shows under a search term when the term is empty or its
/// lower-case form occurs in the lower-case name.
pub open spec fn shows(name: Seq<char>, query: Seq<char>) -> bool {
    query.len() == 0 || contains(lower_of(name), lower_of(query))
}

/// The records that show under the search term, in their order.
pub open spec fn filtered(
    apps: Seq<(Seq<char>, Seq<char>, Option<Seq<char>>)>,
    query: Seq<char>,
) -> Seq<(Seq<char>, Seq<char>, Option<Seq<char>>)>
    decreases apps.len(),
{
    if apps.len() == 0 {
        seq![]
    } else {
        let before = filtered(apps.drop_last(), query);
        if shows(apps.last().0, query) {
            before.push(apps.last())
        } else {
            before
        }
    }
}

/// Whether `query_lower` occurs in `name_lower`; both are taken as already
/// lower-cased.
pub fn matches_folded(name_lower: &str, query_lower: &str) -> (r: bool)
    ensures
        r == contains(name_lower@, query_lower@),
{
    let h = chars_of(name_lower);
    let n = chars_of(query_lower);
    if n.len() > h.len() {
        return false;
    }
    let mut i: usize = 0;
    while i <= h.len() - n.len()
        invariant
            h@ == name_lower@,
            n@ == query_lower@,
            n.len() <= h.len(),
            i <= h.len() - n.len() + 1,
            forall|j: int| 0 <= j < i ==> #[trigger] h@.subrange(j, j + n.len()) != n@,
        decreases h.len() - n.len() + 1 - i,
    {
        let mut k: usize = 0;
        while k < n.len() && h[i + k] == n[k]
            invariant
                i <= h.len() - n.len(),
                k <= n.len(),
                forall|m: int| 0 <= m < k ==> h@[i + m] == n@[m],
            decreases n.len() - k,
        {
            k = k + 1;
        }
        if k == n.len() {
            assert(h@.subrange(i as int, i as int + n@.len()) =~= n@);
            assert(contains(h@, n@));
            return true;
        }
        assert(h@.subrange(i as int, i + n.len())[k as int] != n@[k as int]);
        i = i + 1;
    }
    false
}

/// Whether the application named `name` shows under the search term `query`.
pub fn matches_query(name: &str, query: &str) -> (r: bool)
    ensures
        r == shows(name@, query@),
{
    let q = lowercase(query);
    let n = lowercase(name);
    proof {
        if query@.len() == 0 {
            assert(n@.subrange(0, 0 + q@.len() as int) =~= q@);
            assert(contains(n@, q@));
        }
    }
    matches_folded(n.as_str(), q.as_str())
}

/// The applications that show under the search term, in their order.
pub fn filter_apps(items: &Vec<AppInfo>, query: &str) -> (r: Vec<AppInfo>)
    ensures
        app_views(r@) == filtered(app_views(items@), query@),
{
    let mut r: Vec<AppInfo> = Vec::new();
    let mut i: usize = 0;
    while i < items.len()
        invariant
            i <= items.len(),
            app_views(r@) == filtered(app_views(items@).take(i as int), query@),
        decreases items.len() - i,
    {
        assert(app_views(items@).take(i + 1).drop_last() =~= app_views(items@).take(i as int));
        assert(app_views(items@).take(i + 1).last() == items@[i as int]@);
        if matches_query(items[i].name.as_str(), query) {
            let ghost pre = r@;
            let a = items[i].duplicate();
            r.push(a);
            assert(app_views(r@) =~= app_views(pre).push(a@));
        }
        i = i + 1;
    }
    assert(app_views(items@).take(items.len() as int) =~= app_views(items@));
    r
}

} // verus!
