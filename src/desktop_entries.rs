//! The registry of installed applications: descriptors read from the
//! application directories, deduplicated by identity key, and the queries
//! over them.

use crate::keyed::{keys_distinct, lemma_upsert, upsert};
use crate::text::{
    chars_of, contains_seq, contains_str, find_char, index_of, insert_sorted, is_blank, is_blank_str,
    lemma_index_of, lower_of, lowercase, strictly_sorted,
};
use vstd::prelude::*;
use vstd::string::*;

verus! {

/// The fields of one application descriptor file, as read from it: the
/// display name resolved for the locale, and `None` where a field is absent.
pub struct DesktopFile {
    pub path: String,
    pub name: Option<String>,
    pub icon: Option<String>,
    pub exec_line: Option<String>,
    pub mimetypes: Vec<String>,
    pub categories: Vec<String>,
}

pub struct DesktopFileView {
    pub path: Seq<char>,
    pub name: Option<Seq<char>>,
    pub icon: Option<Seq<char>>,
    pub exec_line: Option<Seq<char>>,
    pub mimetypes: Seq<Seq<char>>,
    pub categories: Seq<Seq<char>>,
}

impl View for DesktopFile {
    type V = DesktopFileView;

    open spec fn view(&self) -> DesktopFileView {
        DesktopFileView {
            path: self.path@,
            name: self.name.deep_view(),
            icon: self.icon.deep_view(),
            exec_line: self.exec_line.deep_view(),
            mimetypes: self.mimetypes.deep_view(),
            categories: self.categories.deep_view(),
        }
    }
}

/// One installed application.
#[derive(Debug, Clone)]
pub struct AppEntry {
    pub name: String,
    pub icon: Option<String>,
    pub exec_line: String,
    pub mimetypes: Vec<String>,
    pub categories: Vec<String>,
    pub path: String,
}

pub struct AppEntryView {
    pub name: Seq<char>,
    pub icon: Option<Seq<char>>,
    pub exec_line: Seq<char>,
    pub mimetypes: Seq<Seq<char>>,
    pub categories: Seq<Seq<char>>,
    pub path: Seq<char>,
}

impl View for AppEntry {
    type V = AppEntryView;

    open spec fn view(&self) -> AppEntryView {
        AppEntryView {
            name: self.name@,
            icon: self.icon.deep_view(),
            exec_line: self.exec_line@,
            mimetypes: self.mimetypes.deep_view(),
            categories: self.categories.deep_view(),
            path: self.path@,
        }
    }
}

/// The elements of `s` that are not empty, in order.
pub open spec fn non_empty(s: Seq<Seq<char>>) -> Seq<Seq<char>> {
    s.filter(|x: Seq<char>| x.len() > 0)
}

/// The application that a descriptor file describes: one with a name and a
/// command line, neither blank; empty MIME types and categories are left out.
pub open spec fn parse_spec(f: DesktopFileView) -> Option<AppEntryView> {
    if f.name is Some && f.exec_line is Some && !is_blank(f.name->0) && !is_blank(f.exec_line->0) {
        Some(
            AppEntryView {
                name: f.name->0,
                icon: f.icon,
                exec_line: f.exec_line->0,
                mimetypes: non_empty(f.mimetypes),
                categories: non_empty(f.categories),
                path: f.path,
            },
        )
    } else {
        None
    }
}

/// The file name of `path` without its extension, where there is one and it
/// is valid text.
pub uninterp spec fn path_stem(path: Seq<char>) -> Option<Seq<char>>;

/// Relies on `std::path::Path::file_stem`: the file name of the path without
/// its extension, taken where it is valid UTF-8.
#[verifier::external_body]
fn file_stem(path: &str) -> (r: Option<String>)
    ensures
        r.deep_view() == path_stem(path@),
{
    match std::path::Path::new(path).file_stem() {
        Some(stem) => match stem.to_str() {
            Some(s) => Some(s.to_string()),
            None => None,
        },
        None => None,
    }
}

/// The identity key of an application: its descriptor's file stem, or its
/// name where the path has none.
pub open spec fn key_of(e: AppEntryView) -> Seq<char> {
    match path_stem(e.path) {
        Some(s) => s,
        None => e.name,
    }
}

/// The registry after reading one more descriptor file: an application that
/// handles at least one MIME type replaces the one with its key, if any.
pub open spec fn load_step(r: Seq<(Seq<char>, AppEntryView)>, f: DesktopFileView) -> Seq<
    (Seq<char>, AppEntryView),
> {
    match parse_spec(f) {
        Some(e) => if e.mimetypes.len() > 0 {
            upsert(r, key_of(e), e)
        } else {
            r
        },
        None => r,
    }
}

/// The registry after reading the files in order, from the lowest precedence
/// to the highest.
pub open spec fn load_all(r: Seq<(Seq<char>, AppEntryView)>, files: Seq<DesktopFileView>) -> Seq<
    (Seq<char>, AppEntryView),
>
    decreases files.len(),
{
    if files.len() == 0 {
        r
    } else {
        load_step(load_all(r, files.drop_last()), files.last())
    }
}

/// The non-empty strings of `v`, in order.
fn keep_non_empty(v: &Vec<String>) -> (r: Vec<String>)
    ensures
        r.deep_view() == non_empty(v.deep_view()),
{
    let ghost s = v.deep_view();
    let mut r: Vec<String> = Vec::new();
    let mut i: usize = 0;
    while i < v.len()
        invariant
            s == v.deep_view(),
            i <= v.len(),
            r.deep_view() == non_empty(s.subrange(0, i as int)),
        decreases v.len() - i,
    {
        proof {
            reveal(Seq::filter);
            assert(s.subrange(0, i + 1).drop_last() =~= s.subrange(0, i as int));
        }
        if !v[i].as_str().is_empty() {
            let ghost old_r = r.deep_view();
            let x = v[i].clone();
            r.push(x);
            assert(r.deep_view() =~= old_r.push(x@));
        }
        i = i + 1;
    }
    assert(s.subrange(0, i as int) =~= s);
    r
}

/// The views of a sequence of descriptor files.
pub open spec fn files_view(s: Seq<DesktopFile>) -> Seq<DesktopFileView> {
    s.map_values(|f: DesktopFile| f@)
}

/// The views of a sequence of references to applications.
pub open spec fn refs_view(s: Seq<&AppEntry>) -> Seq<AppEntryView> {
    s.map_values(|e: &AppEntry| e@)
}

/// The application declares that it handles MIME type `m`, exactly as
/// written.
pub open spec fn handles(m: Seq<char>) -> spec_fn(AppEntryView) -> bool {
    |e: AppEntryView| e.mimetypes.contains(m)
}

/// `folded_query` occurs in the folded name or in one of the folded
/// categories.
pub open spec fn matches_spec(
    folded_query: Seq<char>,
    folded_name: Seq<char>,
    folded_categories: Seq<Seq<char>>,
) -> bool {
    contains_seq(folded_name, folded_query) || exists|j: int|
        0 <= j < folded_categories.len() && contains_seq(
            #[trigger] folded_categories[j],
            folded_query,
        )
}

/// The categories of an application in lower case.
pub open spec fn lower_all(s: Seq<Seq<char>>) -> Seq<Seq<char>> {
    s.map_values(|c: Seq<char>| lower_of(c))
}

/// The application matches the query, ignoring case: the query occurs in its
/// name or in one of its categories.
pub open spec fn matches_query(query: Seq<char>) -> spec_fn(AppEntryView) -> bool {
    |e: AppEntryView| matches_spec(lower_of(query), lower_of(e.name), lower_all(e.categories))
}

/// Whether `folded_query` occurs in `folded_name` or in one of
/// `folded_categories`; all three are taken as already folded to one case.
pub fn matches_folded(folded_query: &str, folded_name: &str, folded_categories: &Vec<String>) -> (r:
    bool)
    ensures
        r == matches_spec(folded_query@, folded_name@, folded_categories.deep_view()),
{
    if contains_str(folded_name, folded_query) {
        return true;
    }
    let mut j: usize = 0;
    while j < folded_categories.len()
        invariant
            j <= folded_categories.len(),
            forall|k: int|
                0 <= k < j ==> !contains_seq(
                    #[trigger] folded_categories.deep_view()[k],
                    folded_query@,
                ),
        decreases folded_categories.len() - j,
    {
        if contains_str(folded_categories[j].as_str(), folded_query) {
            assert(folded_categories.deep_view()[j as int] == folded_categories[j as int]@);
            return true;
        }
        j = j + 1;
    }
    false
}

/// Whether `v` holds `s`.
fn listed(v: &Vec<String>, s: &str) -> (r: bool)
    ensures
        r == v.deep_view().contains(s@),
{
    let key = String::from_str(s);
    let mut i: usize = 0;
    while i < v.len()
        invariant
            key@ == s@,
            i <= v.len(),
            forall|j: int| 0 <= j < i ==> v.deep_view()[j] != s@,
        decreases v.len() - i,
    {
        if v[i] == key {
            assert(v.deep_view()[i as int] == s@);
            return true;
        }
        i = i + 1;
    }
    false
}

/// The non-empty strings among `items`.
pub open spec fn non_empty_set(items: Seq<Seq<char>>) -> Set<Seq<char>> {
    Set::new(|c: Seq<char>| c.len() > 0 && items.contains(c))
}

/// The top-level class of a MIME type: the part before its first `/`, where
/// there is a `/` and that part is not empty.
pub open spec fn main_class(m: Seq<char>) -> Option<Seq<char>> {
    let k = index_of(m, '/');
    if 0 < k < m.len() {
        Some(m.subrange(0, k))
    } else {
        None
    }
}

/// The top-level classes of the MIME types among `items`.
pub open spec fn class_set(items: Seq<Seq<char>>) -> Set<Seq<char>> {
    Set::new(
        |c: Seq<char>|
            exists|j: int| 0 <= j < items.len() && main_class(#[trigger] items[j]) == Some(c),
    )
}

/// The strings that `f` gives for one of the applications or another.
pub open spec fn union_over(es: Seq<AppEntryView>, f: spec_fn(AppEntryView) -> Set<Seq<char>>) -> Set<
    Seq<char>,
> {
    Set::new(|c: Seq<char>| exists|i: int| 0 <= i < es.len() && #[trigger] f(es[i]).contains(c))
}

/// The non-empty categories of all the applications.
pub open spec fn all_categories(es: Seq<AppEntryView>) -> Set<Seq<char>> {
    union_over(es, |e: AppEntryView| non_empty_set(e.categories))
}

/// The non-empty MIME types of all the applications.
pub open spec fn all_mimetypes(es: Seq<AppEntryView>) -> Set<Seq<char>> {
    union_over(es, |e: AppEntryView| non_empty_set(e.mimetypes))
}

/// The top-level classes of the MIME types of all the applications.
pub open spec fn all_main_classes(es: Seq<AppEntryView>) -> Set<Seq<char>> {
    union_over(es, |e: AppEntryView| class_set(e.mimetypes))
}

proof fn lemma_union_over_step(
    es: Seq<AppEntryView>,
    i: int,
    f: spec_fn(AppEntryView) -> Set<Seq<char>>,
)
    requires
        0 <= i < es.len(),
    ensures
        union_over(es.subrange(0, i + 1), f) == union_over(es.subrange(0, i), f).union(f(es[i])),
{
    let a = es.subrange(0, i + 1);
    let b = es.subrange(0, i);
    assert(a[i] == es[i]);
    assert forall|c: Seq<char>| union_over(a, f).contains(c) implies union_over(b, f).union(
        f(es[i]),
    ).contains(c) by {
        let m = choose|m: int| 0 <= m < a.len() && #[trigger] f(a[m]).contains(c);
        if m < i {
            assert(b[m] == a[m]);
        }
    }
    assert forall|c: Seq<char>| union_over(b, f).contains(c) implies union_over(a, f).contains(c) by {
        let m = choose|m: int| 0 <= m < b.len() && #[trigger] f(b[m]).contains(c);
        assert(b[m] == a[m]);
    }
    assert(union_over(a, f) =~= union_over(b, f).union(f(es[i])));
}

/// A list of distinct names in ascending order, none of them empty.
pub open spec fn sorted_names(s: Seq<Seq<char>>) -> bool {
    &&& strictly_sorted(s)
    &&& forall|k: int| 0 <= k < s.len() ==> (#[trigger] s[k]).len() > 0
}

/// The top-level class of `m`, if it has one.
fn main_class_of(m: &str) -> (r: Option<String>)
    ensures
        r.deep_view() == main_class(m@),
{
    let c = chars_of(m);
    let n = c.len();
    let k = find_char(&c, 0, n, '/');
    assert(c@.subrange(0, n as int) =~= m@);
    if 0 < k && k < n {
        Some(String::from_str(m.substring_char(0, k)))
    } else {
        None
    }
}

/// Adds the non-empty strings of `items` to the sorted list `v`.
fn add_non_empty(v: &mut Vec<String>, items: &Vec<String>)
    requires
        sorted_names(old(v).deep_view()),
    ensures
        sorted_names(final(v).deep_view()),
        final(v).deep_view().to_set() == old(v).deep_view().to_set().union(
            non_empty_set(items.deep_view()),
        ),
{
    let ghost s = items.deep_view();
    let mut j: usize = 0;
    while j < items.len()
        invariant
            s == items.deep_view(),
            j <= items.len(),
            sorted_names(v.deep_view()),
            v.deep_view().to_set() == old(v).deep_view().to_set().union(
                non_empty_set(s.subrange(0, j as int)),
            ),
        decreases items.len() - j,
    {
        let ghost before = v.deep_view();
        if !items[j].as_str().is_empty() {
            insert_sorted(v, items[j].clone());
            assert forall|k: int| 0 <= k < v.len() implies (#[trigger] v.deep_view()[k]).len() > 0 by {
                if before.contains(v.deep_view()[k]) {
                    let m = choose|m: int| 0 <= m < before.len() && before[m] == v.deep_view()[k];
                    assert(before[m].len() > 0);
                }
            }
        }
        assert(non_empty_set(s.subrange(0, j + 1)) =~= non_empty_set(s.subrange(0, j as int)).union(
            if s[j as int].len() > 0 { set![s[j as int]] } else { Set::empty() },
        )) by {
            assert(s.subrange(0, j + 1)[j as int] == s[j as int]);
            assert forall|c: Seq<char>| s.subrange(0, j + 1).contains(c) && c != s[j as int] implies s.subrange(0, j as int).contains(c) by {
                let m = choose|m: int| 0 <= m < j + 1 && #[trigger] s.subrange(0, j + 1)[m] == c;
                assert(s.subrange(0, j as int)[m] == c);
            }
            assert forall|c: Seq<char>| s.subrange(0, j as int).contains(c) implies s.subrange(0, j + 1).contains(c) by {
                let m = choose|m: int| 0 <= m < j && #[trigger] s.subrange(0, j as int)[m] == c;
                assert(s.subrange(0, j + 1)[m] == c);
            }
        }
        assert(v.deep_view().to_set() =~= old(v).deep_view().to_set().union(
            non_empty_set(s.subrange(0, j + 1)),
        ));
        j = j + 1;
    }
    assert(s.subrange(0, j as int) =~= s);
}

/// Adds the top-level classes of the MIME types `items` to the sorted list
/// `v`.
fn add_classes(v: &mut Vec<String>, items: &Vec<String>)
    requires
        sorted_names(old(v).deep_view()),
    ensures
        sorted_names(final(v).deep_view()),
        final(v).deep_view().to_set() == old(v).deep_view().to_set().union(
            class_set(items.deep_view()),
        ),
{
    let ghost s = items.deep_view();
    let mut j: usize = 0;
    while j < items.len()
        invariant
            s == items.deep_view(),
            j <= items.len(),
            sorted_names(v.deep_view()),
            v.deep_view().to_set() == old(v).deep_view().to_set().union(
                class_set(s.subrange(0, j as int)),
            ),
        decreases items.len() - j,
    {
        let ghost before = v.deep_view();
        let class = main_class_of(items[j].as_str());
        match class {
            Some(t) => {
                proof {
                    lemma_index_of(s[j as int], '/');
                }
                insert_sorted(v, t);
                assert forall|k: int| 0 <= k < v.len() implies (#[trigger] v.deep_view()[k]).len() > 0 by {
                    if before.contains(v.deep_view()[k]) {
                        let m = choose|m: int| 0 <= m < before.len() && before[m] == v.deep_view()[k];
                        assert(before[m].len() > 0);
                    }
                }
            },
            None => {},
        }
        assert(class_set(s.subrange(0, j + 1)) =~= class_set(s.subrange(0, j as int)).union(
            match main_class(s[j as int]) {
                Some(t) => set![t],
                None => Set::empty(),
            },
        )) by {
            assert(s.subrange(0, j + 1)[j as int] == s[j as int]);
            assert forall|c: Seq<char>| class_set(s.subrange(0, j + 1)).contains(c) && main_class(s[j as int]) != Some(c) implies class_set(s.subrange(0, j as int)).contains(c) by {
                let m = choose|m: int| 0 <= m < j + 1 && main_class(#[trigger] s.subrange(0, j + 1)[m]) == Some(c);
                assert(s.subrange(0, j as int)[m] == s.subrange(0, j + 1)[m]);
            }
            assert forall|c: Seq<char>| class_set(s.subrange(0, j as int)).contains(c) implies class_set(s.subrange(0, j + 1)).contains(c) by {
                let m = choose|m: int| 0 <= m < j && main_class(#[trigger] s.subrange(0, j as int)[m]) == Some(c);
                assert(s.subrange(0, j as int)[m] == s.subrange(0, j + 1)[m]);
            }
        }
        assert(v.deep_view().to_set() =~= old(v).deep_view().to_set().union(
            class_set(s.subrange(0, j + 1)),
        ));
        j = j + 1;
    }
    assert(s.subrange(0, j as int) =~= s);
}

pub open spec fn opt_entry_view(o: Option<AppEntry>) -> Option<AppEntryView> {
    match o {
        Some(e) => Some(e@),
        None => None,
    }
}

proof fn lemma_upsert_keyed(p: Seq<(Seq<char>, AppEntryView)>, k: Seq<char>, e: AppEntryView)
    requires
        keys_distinct(p),
        forall|i: int| 0 <= i < p.len() ==> (#[trigger] p[i]).0 == key_of(p[i].1),
        k == key_of(e),
    ensures
        forall|i: int|
            0 <= i < upsert(p, k, e).len() ==> (#[trigger] upsert(p, k, e)[i]).0 == key_of(
                upsert(p, k, e)[i].1,
            ),
{
    lemma_upsert(p, k, e);
    let q = upsert(p, k, e);
    assert forall|i: int| 0 <= i < q.len() implies (#[trigger] q[i]).0 == key_of(q[i].1) by {
        if q[i].0 != k {
            let m = choose|m: int| 0 <= m < p.len() && p[m] == q[i];
            assert(p[m].0 == key_of(p[m].1));
        }
    }
}

/// Selecting from a sequence without repeats gives a sequence without
/// repeats.
pub proof fn lemma_filter_no_duplicates(s: Seq<AppEntryView>, pred: spec_fn(AppEntryView) -> bool)
    requires
        s.no_duplicates(),
    ensures
        s.filter(pred).no_duplicates(),
    decreases s.len(),
{
    reveal(Seq::filter);
    if s.len() > 0 {
        let q = s.drop_last();
        assert(q.no_duplicates()) by {
            assert forall|i: int, j: int| 0 <= i < q.len() && 0 <= j < q.len() && i != j implies q[i] != q[j] by {
                assert(q[i] == s[i] && q[j] == s[j]);
            }
        }
        lemma_filter_no_duplicates(q, pred);
        if pred(s.last()) {
            let f = q.filter(pred);
            assert(!f.contains(s.last())) by {
                if f.contains(s.last()) {
                    q.lemma_filter_contains_rev(pred, s.last());
                    let i = choose|i: int| 0 <= i < q.len() && q[i] == s.last();
                    assert(s[i] == s[s.len() - 1]);
                }
            }
            let g = f.push(s.last());
            assert forall|i: int, j: int| 0 <= i < g.len() && 0 <= j < g.len() && i != j implies g[i] != g[j] by {
                if i < f.len() && j < f.len() {
                    assert(g[i] == f[i] && g[j] == f[j]);
                } else if i < f.len() {
                    assert(f.contains(g[i]));
                } else if j < f.len() {
                    assert(f.contains(g[j]));
                }
            }
        }
    }
}

/// The registry of applications, keyed by identity key.
pub struct DesktopEntryManager {
    keys: Vec<String>,
    entries: Vec<AppEntry>,
}

impl DesktopEntryManager {
    /// The (identity key, application) pairs, each key once.
    pub closed spec fn model(&self) -> Seq<(Seq<char>, AppEntryView)> {
        Seq::new(self.keys.len() as nat, |i: int| (self.keys@[i]@, self.entries@[i]@))
    }

    /// The applications, in the order of the registry.
    pub open spec fn entries_view(&self) -> Seq<AppEntryView> {
        self.model().map_values(|p: (Seq<char>, AppEntryView)| p.1)
    }

    pub closed spec fn wf(&self) -> bool {
        &&& self.keys.len() == self.entries.len()
        &&& keys_distinct(self.model())
        &&& forall|i: int|
            0 <= i < self.model().len() ==> (#[trigger] self.model()[i]).0 == key_of(
                self.model()[i].1,
            )
    }

    /// Each application is filed under its own identity key, so no
    /// application occurs twice.
    pub proof fn lemma_entries_distinct(&self)
        requires
            self.wf(),
        ensures
            self.entries_view().no_duplicates(),
            forall|i: int|
                0 <= i < self.model().len() ==> (#[trigger] self.model()[i]).0 == key_of(
                    self.model()[i].1,
                ),
    {
        let es = self.entries_view();
        assert forall|i: int, j: int| 0 <= i < es.len() && 0 <= j < es.len() && i != j implies es[i] != es[j] by {
            assert(self.model()[i].0 == key_of(self.model()[i].1));
            assert(self.model()[j].0 == key_of(self.model()[j].1));
            if i < j {
                assert(self.model()[i].0 != self.model()[j].0);
            } else {
                assert(self.model()[j].0 != self.model()[i].0);
            }
        }
    }

    /// An empty registry.
    pub fn new() -> (r: Self)
        ensures
            r.wf(),
            r.model() == Seq::<(Seq<char>, AppEntryView)>::empty(),
    {
        let r = DesktopEntryManager { keys: Vec::new(), entries: Vec::new() };
        assert(r.model() =~= Seq::<(Seq<char>, AppEntryView)>::empty());
        r
    }

    /// The application that a descriptor file describes, if it has a name
    /// and a command line that are not blank.
    pub fn parse_entry(file: DesktopFile) -> (r: Option<AppEntry>)
        ensures
            opt_entry_view(r) == parse_spec(file@),
    {
        let ghost f = file@;
        let DesktopFile { path, name, icon, exec_line, mimetypes, categories } = file;
        let name = match name {
            Some(n) => n,
            None => return None,
        };
        let exec_line = match exec_line {
            Some(e) => e,
            None => return None,
        };
        if is_blank_str(name.as_str()) || is_blank_str(exec_line.as_str()) {
            return None;
        }
        let mimetypes = keep_non_empty(&mimetypes);
        let categories = keep_non_empty(&categories);
        Some(AppEntry { name, icon, exec_line, mimetypes, categories, path })
    }

    /// The identity key of an application.
    pub fn entry_key(entry: &AppEntry) -> (r: String)
        ensures
            r@ == key_of(entry@),
    {
        match file_stem(entry.path.as_str()) {
            Some(s) => s,
            None => entry.name.clone(),
        }
    }

    /// Puts `entry` under its identity key `key`, replacing the application
    /// held there.
    pub fn insert_entry(&mut self, key: String, entry: AppEntry)
        requires
            old(self).wf(),
            key@ == key_of(entry@),
        ensures
            final(self).wf(),
            final(self).model() == upsert(old(self).model(), key@, entry@),
    {
        let ghost p = self.model();
        let ghost k = key@;
        let ghost e = entry@;
        proof {
            lemma_upsert(p, k, e);
        }
        let mut i: usize = 0;
        while i < self.keys.len()
            invariant
                p == self.model(),
                p == old(self).model(),
                k == key@,
                k == key_of(e),
                e == entry@,
                self.wf(),
                i <= self.keys.len(),
                forall|j: int| 0 <= j < i ==> p[j].0 != k,
            decreases self.keys.len() - i,
        {
            assert(p[i as int].0 == self.keys@[i as int]@);
            if self.keys[i] == key {
                let ghost old_entries = self.entries@;
                self.entries.set(i, entry);
                assert forall|j: int| 0 <= j < p.len() implies #[trigger] self.model()[j] == p.update(i as int, (k, e))[j] by {
                    if j != i {
                        assert(self.entries@[j] == old_entries[j]);
                    }
                }
                assert(self.model() =~= p.update(i as int, (k, e)));
                assert(p[i as int].0 == k);
                assert(exists|j: int| 0 <= j < p.len() && p[j].0 == k);
                let ghost c = choose|j: int| 0 <= j < p.len() && p[j].0 == k;
                assert(c == i) by {
                    if c < i {
                        assert(p[c].0 != p[i as int].0);
                    } else if c > i {
                        assert(p[i as int].0 != p[c].0);
                    }
                }
                assert(upsert(p, k, e) == p.update(i as int, (k, e)));
                proof {
                    lemma_upsert_keyed(p, k, e);
                }
                return;
            }
            i = i + 1;
        }
        self.keys.push(key);
        self.entries.push(entry);
        assert(self.model() =~= p.push((k, e)));
        proof {
            lemma_upsert_keyed(p, k, e);
        }
    }

    /// Replaces the registry with the applications of `files`, read in order
    /// from the lowest precedence to the highest: an application that
    /// handles no MIME type is left out, and a later application replaces an
    /// earlier one with the same identity key.
    pub fn load_entries(&mut self, files: Vec<DesktopFile>)
        ensures
            final(self).wf(),
            final(self).model() == load_all(Seq::empty(), files_view(files@)),
    {
        let ghost fs = files_view(files@);
        *self = DesktopEntryManager::new();
        let mut files = files;
        let ghost done: int = 0;
        while files.len() > 0
            invariant
                0 <= done <= fs.len(),
                files_view(files@) == fs.subrange(done, fs.len() as int),
                self.wf(),
                self.model() == load_all(Seq::empty(), fs.subrange(0, done)),
            decreases files.len(),
        {
            let ghost before = files@;
            assert(files_view(before).len() == before.len());
            assert(files_view(before)[0] == before[0]@);
            assert(fs.subrange(done, fs.len() as int)[0] == fs[done]);
            let file = files.remove(0);
            proof {
                assert(file@ == fs[done]);
                assert forall|j: int| 0 <= j < files@.len() implies #[trigger] files@[j]@ == fs.subrange(done + 1, fs.len() as int)[j] by {
                    assert(files@[j] == before[j + 1]);
                    assert(files_view(before)[j + 1] == before[j + 1]@);
                    assert(fs.subrange(done, fs.len() as int)[j + 1] == fs.subrange(done + 1, fs.len() as int)[j]);
                }
                assert(fs.subrange(0, done + 1).drop_last() =~= fs.subrange(0, done));
                done = done + 1;
                assert(files_view(files@) =~= fs.subrange(done, fs.len() as int));
            }
            match DesktopEntryManager::parse_entry(file) {
                Some(entry) => {
                    if entry.mimetypes.len() > 0 {
                        let key = DesktopEntryManager::entry_key(&entry);
                        self.insert_entry(key, entry);
                    }
                },
                None => {},
            }
        }
        assert(fs.subrange(0, done) =~= fs);
    }

    /// All applications, in the order of the registry.
    pub fn get_entries(&self) -> (r: Vec<&AppEntry>)
        requires
            self.wf(),
        ensures
            refs_view(r@) == self.entries_view(),
            refs_view(r@).no_duplicates(),
    {
        proof {
            self.lemma_entries_distinct();
        }
        let mut r: Vec<&AppEntry> = Vec::new();
        let mut i: usize = 0;
        while i < self.entries.len()
            invariant
                self.wf(),
                i <= self.entries.len(),
                refs_view(r@) == self.entries_view().subrange(0, i as int),
            decreases self.entries.len() - i,
        {
            let ghost old_r = r@;
            r.push(&self.entries[i]);
            assert(self.entries_view()[i as int] == self.entries@[i as int]@);
            assert(refs_view(r@) =~= refs_view(old_r).push(self.entries@[i as int]@));
            i = i + 1;
            assert(refs_view(r@) =~= self.entries_view().subrange(0, i as int));
        }
        assert(self.entries_view().subrange(0, i as int) =~= self.entries_view());
        r
    }

    /// The applications that declare exactly `mimetype`, in the order of the
    /// registry.
    pub fn get_entries_for_mimetype(&self, mimetype: &str) -> (r: Vec<&AppEntry>)
        requires
            self.wf(),
        ensures
            refs_view(r@) == self.entries_view().filter(handles(mimetype@)),
            refs_view(r@).no_duplicates(),
    {
        proof {
            self.lemma_entries_distinct();
            lemma_filter_no_duplicates(self.entries_view(), handles(mimetype@));
        }
        let ghost es = self.entries_view();
        let mut r: Vec<&AppEntry> = Vec::new();
        let mut i: usize = 0;
        while i < self.entries.len()
            invariant
                self.wf(),
                es == self.entries_view(),
                i <= self.entries.len(),
                refs_view(r@) == es.subrange(0, i as int).filter(handles(mimetype@)),
            decreases self.entries.len() - i,
        {
            proof {
                reveal(Seq::filter);
                assert(es.subrange(0, i + 1).drop_last() =~= es.subrange(0, i as int));
                assert(es[i as int] == self.entries@[i as int]@);
            }
            if listed(&self.entries[i].mimetypes, mimetype) {
                let ghost old_r = r@;
                r.push(&self.entries[i]);
                assert(refs_view(r@) =~= refs_view(old_r).push(self.entries@[i as int]@));
            }
            i = i + 1;
        }
        assert(es.subrange(0, i as int) =~= es);
        r
    }

    /// The applications whose name, or one of whose categories, holds
    /// `query`, ignoring case; in the order of the registry.
    pub fn search_entries(&self, query: &str) -> (r: Vec<&AppEntry>)
        requires
            self.wf(),
        ensures
            refs_view(r@) == self.entries_view().filter(matches_query(query@)),
            refs_view(r@).no_duplicates(),
    {
        proof {
            self.lemma_entries_distinct();
            lemma_filter_no_duplicates(self.entries_view(), matches_query(query@));
        }
        let ghost es = self.entries_view();
        let folded_query = lowercase(query);
        let mut r: Vec<&AppEntry> = Vec::new();
        let mut i: usize = 0;
        while i < self.entries.len()
            invariant
                self.wf(),
                es == self.entries_view(),
                folded_query@ == lower_of(query@),
                i <= self.entries.len(),
                refs_view(r@) == es.subrange(0, i as int).filter(matches_query(query@)),
            decreases self.entries.len() - i,
        {
            proof {
                reveal(Seq::filter);
                assert(es.subrange(0, i + 1).drop_last() =~= es.subrange(0, i as int));
                assert(es[i as int] == self.entries@[i as int]@);
            }
            let entry = &self.entries[i];
            let folded_name = lowercase(entry.name.as_str());
            let mut folded_categories: Vec<String> = Vec::new();
            let mut j: usize = 0;
            while j < entry.categories.len()
                invariant
                    j <= entry.categories.len(),
                    folded_categories.deep_view() == lower_all(entry.categories.deep_view()).subrange(0, j as int),
                decreases entry.categories.len() - j,
            {
                let ghost old_f = folded_categories.deep_view();
                let c = lowercase(entry.categories[j].as_str());
                folded_categories.push(c);
                assert(folded_categories.deep_view() =~= old_f.push(c@));
                j = j + 1;
                assert(folded_categories.deep_view() =~= lower_all(entry.categories.deep_view()).subrange(0, j as int));
            }
            assert(folded_categories.deep_view() =~= lower_all(entry.categories.deep_view()));
            if matches_folded(folded_query.as_str(), folded_name.as_str(), &folded_categories) {
                let ghost old_r = r@;
                r.push(entry);
                assert(refs_view(r@) =~= refs_view(old_r).push(self.entries@[i as int]@));
            }
            i = i + 1;
        }
        assert(es.subrange(0, i as int) =~= es);
        r
    }

    /// The distinct non-empty categories of all applications, ascending.
    pub fn get_all_categories(&self) -> (r: Vec<String>)
        requires
            self.wf(),
        ensures
            sorted_names(r.deep_view()),
            r.deep_view().to_set() == all_categories(self.entries_view()),
    {
        let ghost es = self.entries_view();
        let mut r: Vec<String> = Vec::new();
        let mut i: usize = 0;
        assert(r.deep_view().to_set() =~= all_categories(es.subrange(0, 0)));
        while i < self.entries.len()
            invariant
                self.wf(),
                es == self.entries_view(),
                i <= self.entries.len(),
                sorted_names(r.deep_view()),
                r.deep_view().to_set() == all_categories(es.subrange(0, i as int)),
            decreases self.entries.len() - i,
        {
            assert(es[i as int] == self.entries@[i as int]@);
            add_non_empty(&mut r, &self.entries[i].categories);
            proof {
                lemma_union_over_step(es, i as int, |e: AppEntryView| non_empty_set(e.categories));
            }
            i = i + 1;
        }
        assert(es.subrange(0, i as int) =~= es);
        r
    }

    /// The distinct non-empty MIME types of all applications, ascending.
    pub fn get_all_mimetypes(&self) -> (r: Vec<String>)
        requires
            self.wf(),
        ensures
            sorted_names(r.deep_view()),
            r.deep_view().to_set() == all_mimetypes(self.entries_view()),
    {
        let ghost es = self.entries_view();
        let mut r: Vec<String> = Vec::new();
        let mut i: usize = 0;
        assert(r.deep_view().to_set() =~= all_mimetypes(es.subrange(0, 0)));
        while i < self.entries.len()
            invariant
                self.wf(),
                es == self.entries_view(),
                i <= self.entries.len(),
                sorted_names(r.deep_view()),
                r.deep_view().to_set() == all_mimetypes(es.subrange(0, i as int)),
            decreases self.entries.len() - i,
        {
            assert(es[i as int] == self.entries@[i as int]@);
            add_non_empty(&mut r, &self.entries[i].mimetypes);
            proof {
                lemma_union_over_step(es, i as int, |e: AppEntryView| non_empty_set(e.mimetypes));
            }
            i = i + 1;
        }
        assert(es.subrange(0, i as int) =~= es);
        r
    }

    /// The distinct top-level classes of the MIME types of all applications,
    /// ascending.
    pub fn get_main_mimetype_categories(&self) -> (r: Vec<String>)
        requires
            self.wf(),
        ensures
            sorted_names(r.deep_view()),
            r.deep_view().to_set() == all_main_classes(self.entries_view()),
    {
        let ghost es = self.entries_view();
        let mut r: Vec<String> = Vec::new();
        let mut i: usize = 0;
        assert(r.deep_view().to_set() =~= all_main_classes(es.subrange(0, 0)));
        while i < self.entries.len()
            invariant
                self.wf(),
                es == self.entries_view(),
                i <= self.entries.len(),
                sorted_names(r.deep_view()),
                r.deep_view().to_set() == all_main_classes(es.subrange(0, i as int)),
            decreases self.entries.len() - i,
        {
            assert(es[i as int] == self.entries@[i as int]@);
            add_classes(&mut r, &self.entries[i].mimetypes);
            proof {
                lemma_union_over_step(es, i as int, |e: AppEntryView| class_set(e.mimetypes));
            }
            i = i + 1;
        }
        assert(es.subrange(0, i as int) =~= es);
        r
    }

    /// The first application of the registry with the display name `name`.
    pub fn find_by_name(&self, name: &str) -> (r: Option<&AppEntry>)
        requires
            self.wf(),
        ensures
            match r {
                Some(e) => exists|i: int|
                    0 <= i < self.entries_view().len() && self.entries_view()[i] == e@
                        && e@.name == name@ && forall|j: int|
                        0 <= j < i ==> (#[trigger] self.entries_view()[j]).name != name@,
                None => forall|i: int|
                    0 <= i < self.entries_view().len() ==> (#[trigger] self.entries_view()[i]).name
                        != name@,
            },
    {
        let key = String::from_str(name);
        let mut i: usize = 0;
        while i < self.entries.len()
            invariant
                self.wf(),
                key@ == name@,
                i <= self.entries.len(),
                forall|j: int| 0 <= j < i ==> (#[trigger] self.entries_view()[j]).name != name@,
            decreases self.entries.len() - i,
        {
            assert(self.entries_view()[i as int] == self.entries@[i as int]@);
            if self.entries[i].name == key {
                return Some(&self.entries[i]);
            }
            i = i + 1;
        }
        None
    }
}

impl Default for DesktopEntryManager {
    fn default() -> (r: Self)
        ensures
            r.wf(),
            r.model() == Seq::<(Seq<char>, AppEntryView)>::empty(),
    {
        DesktopEntryManager::new()
    }
}

/// An application as the registry holds it under `key`: named, with a
/// command line, handling at least one MIME type, and filed under its own
/// identity key.
pub open spec fn registered(key: Seq<char>, e: AppEntryView) -> bool {
    &&& !is_blank(e.name)
    &&& e.name.len() > 0
    &&& !is_blank(e.exec_line)
    &&& e.exec_line.len() > 0
    &&& e.mimetypes.len() > 0
    &&& forall|j: int| 0 <= j < e.mimetypes.len() ==> (#[trigger] e.mimetypes[j]).len() > 0
    &&& forall|j: int| 0 <= j < e.categories.len() ==> (#[trigger] e.categories[j]).len() > 0
    &&& key == key_of(e)
}

/// A descriptor file that the registry takes: it describes an application
/// that handles at least one MIME type.
pub open spec fn accepted(f: DesktopFileView) -> bool {
    parse_spec(f) is Some && parse_spec(f)->0.mimetypes.len() > 0
}

proof fn lemma_parse_spec_registered(f: DesktopFileView)
    requires
        accepted(f),
    ensures
        registered(key_of(parse_spec(f)->0), parse_spec(f)->0),
{
    let e = parse_spec(f)->0;
    assert(f.name->0.len() > 0) by {
        if f.name->0.len() == 0 {
            assert(is_blank(f.name->0));
        }
    }
    assert(f.exec_line->0.len() > 0) by {
        if f.exec_line->0.len() == 0 {
            assert(is_blank(f.exec_line->0));
        }
    }
    assert forall|j: int| 0 <= j < e.mimetypes.len() implies (#[trigger] e.mimetypes[j]).len() > 0 by {
        f.mimetypes.lemma_filter_pred(|x: Seq<char>| x.len() > 0, j);
    }
    assert forall|j: int| 0 <= j < e.categories.len() implies (#[trigger] e.categories[j]).len() > 0 by {
        f.categories.lemma_filter_pred(|x: Seq<char>| x.len() > 0, j);
    }
}

/// After any sequence of descriptor files is read, each application in the
/// registry has a name and a command line that are not blank, handles at
/// least one MIME type, and is filed under its identity key, each key once.
pub proof fn lemma_loaded_entries_registered(files: Seq<DesktopFileView>)
    ensures
        keys_distinct(load_all(Seq::empty(), files)),
        forall|i: int|
            0 <= i < load_all(Seq::empty(), files).len() ==> registered(
                #[trigger] load_all(Seq::empty(), files)[i].0,
                load_all(Seq::empty(), files)[i].1,
            ),
    decreases files.len(),
{
    if files.len() > 0 {
        let p = load_all(Seq::empty(), files.drop_last());
        lemma_loaded_entries_registered(files.drop_last());
        let f = files.last();
        if accepted(f) {
            let e = parse_spec(f)->0;
            lemma_parse_spec_registered(f);
            lemma_upsert(p, key_of(e), e);
            let q = upsert(p, key_of(e), e);
            assert forall|i: int| 0 <= i < q.len() implies registered(#[trigger] q[i].0, q[i].1) by {
                if q[i].0 != key_of(e) {
                    let m = choose|m: int| 0 <= m < p.len() && p[m] == q[i];
                    assert(registered(p[m].0, p[m].1));
                }
            }
        }
    }
}

/// A descriptor file that the registry does not take changes nothing: the
/// registry read without it is the same.
pub proof fn lemma_rejected_file_ignored(
    r: Seq<(Seq<char>, AppEntryView)>,
    files: Seq<DesktopFileView>,
    i: int,
)
    requires
        0 <= i < files.len(),
        !accepted(files[i]),
    ensures
        load_all(r, files) == load_all(r, files.remove(i)),
    decreases files.len(),
{
    if i == files.len() - 1 {
        assert(files.remove(i) =~= files.drop_last());
    } else {
        lemma_rejected_file_ignored(r, files.drop_last(), i);
        assert(files.remove(i).drop_last() =~= files.drop_last().remove(i));
        assert(files.remove(i).last() == files.last());
    }
}

/// A descriptor file without a command line is left out of the registry,
/// whatever its name and MIME types.
pub proof fn lemma_file_without_exec_ignored(files: Seq<DesktopFileView>, i: int)
    requires
        0 <= i < files.len(),
        files[i].exec_line is None,
    ensures
        load_all(Seq::empty(), files) == load_all(Seq::empty(), files.remove(i)),
{
    lemma_rejected_file_ignored(Seq::empty(), files, i);
}

/// A descriptor file that declares no MIME type is left out of the registry.
pub proof fn lemma_file_without_mimetypes_ignored(files: Seq<DesktopFileView>, i: int)
    requires
        0 <= i < files.len(),
        files[i].mimetypes.len() == 0,
    ensures
        load_all(Seq::empty(), files) == load_all(Seq::empty(), files.remove(i)),
{
    reveal(Seq::filter);
    assert(non_empty(files[i].mimetypes).len() == 0);
    lemma_rejected_file_ignored(Seq::empty(), files, i);
}

/// Of two accepted descriptor files with the same identity key, the one read
/// later (from the directory of higher precedence) is the one the registry
/// holds under that key: the registry holds the application of file `j`
/// where no file after it that the registry takes has the same key.
pub proof fn lemma_later_file_wins(files: Seq<DesktopFileView>, j: int)
    requires
        0 <= j < files.len(),
        accepted(files[j]),
        forall|m: int|
            j < m < files.len() && accepted(#[trigger] files[m]) ==> key_of(parse_spec(files[m])->0)
                != key_of(parse_spec(files[j])->0),
    ensures
        load_all(Seq::empty(), files).contains(
            (key_of(parse_spec(files[j])->0), parse_spec(files[j])->0),
        ),
        forall|i: int|
            0 <= i < load_all(Seq::empty(), files).len() && (#[trigger] load_all(
                Seq::empty(),
                files,
            )[i]).0 == key_of(parse_spec(files[j])->0) ==> load_all(Seq::empty(), files)[i].1
                == parse_spec(files[j])->0,
    decreases files.len(),
{
    let e = parse_spec(files[j])->0;
    let k = key_of(e);
    let p = load_all(Seq::empty(), files.drop_last());
    let q = load_all(Seq::empty(), files);
    lemma_loaded_entries_registered(files.drop_last());
    if j == files.len() - 1 {
        lemma_upsert(p, k, e);
    } else {
        assert forall|m: int|
            j < m < files.drop_last().len() && accepted(#[trigger] files.drop_last()[m]) implies key_of(
            parse_spec(files.drop_last()[m])->0,
        ) != key_of(parse_spec(files.drop_last()[j])->0) by {
            assert(files.drop_last()[m] == files[m]);
        }
        assert(files.drop_last()[j] == files[j]);
        lemma_later_file_wins(files.drop_last(), j);
        let f = files.last();
        if accepted(f) {
            let e2 = parse_spec(f)->0;
            assert(files[files.len() - 1] == f);
            lemma_upsert(p, key_of(e2), e2);
            let idx = choose|idx: int| 0 <= idx < p.len() && p[idx] == (k, e);
            assert(q[idx] == p[idx]);
            assert forall|i: int| 0 <= i < q.len() && (#[trigger] q[i]).0 == k implies q[i].1 == e by {
                let m = choose|m: int| 0 <= m < p.len() && p[m] == q[i];
                assert(p[m].0 == k);
            }
        }
    }
}

/// Two descriptor files with the same file stem `k`, `i1` read from a
/// directory of lower precedence and `i2` from one of higher: where each
/// accepted file read after `i2` has a file stem other than `k`, the registry
/// holds the application of `i2` under `k`, and no application read from the
/// path of `i1` (a replacement, not a merge).
pub proof fn lemma_higher_precedence_replaces(
    files: Seq<DesktopFileView>,
    i1: int,
    i2: int,
    k: Seq<char>,
)
    requires
        0 <= i1 < i2 < files.len(),
        accepted(files[i2]),
        path_stem(files[i1].path) == Some(k),
        path_stem(files[i2].path) == Some(k),
        files[i1].path != files[i2].path,
        forall|m: int|
            i2 < m < files.len() && accepted(#[trigger] files[m]) ==> path_stem(files[m].path) is Some
                && path_stem(files[m].path) != Some(k),
    ensures
        load_all(Seq::empty(), files).contains((k, parse_spec(files[i2])->0)),
        forall|i: int|
            0 <= i < load_all(Seq::empty(), files).len() && (#[trigger] load_all(
                Seq::empty(),
                files,
            )[i]).0 == k ==> load_all(Seq::empty(), files)[i].1 == parse_spec(files[i2])->0,
        forall|i: int|
            0 <= i < load_all(Seq::empty(), files).len() ==> (#[trigger] load_all(
                Seq::empty(),
                files,
            )[i]).1.path != files[i1].path,
{
    let q = load_all(Seq::empty(), files);
    let e = parse_spec(files[i2])->0;
    assert(key_of(e) == k);
    assert forall|m: int|
        i2 < m < files.len() && accepted(#[trigger] files[m]) implies key_of(parse_spec(files[m])->0)
            != key_of(parse_spec(files[i2])->0) by {
        assert(parse_spec(files[m])->0.path == files[m].path);
    }
    lemma_later_file_wins(files, i2);
    lemma_loaded_entries_registered(files);
    assert forall|i: int| 0 <= i < q.len() implies (#[trigger] q[i]).1.path != files[i1].path by {
        assert(registered(q[i].0, q[i].1));
        if q[i].1.path == files[i1].path {
            assert(q[i].0 == k);
            assert(q[i].1 == e);
        }
    }
}

/// The applications that `get_entries_for_mimetype` returns are exactly those
/// of the registry that declare the MIME type.
pub proof fn lemma_mimetype_selection(es: Seq<AppEntryView>, m: Seq<char>)
    ensures
        forall|e: AppEntryView|
            #[trigger] es.filter(handles(m)).contains(e) <==> es.contains(e) && e.mimetypes.contains(m),
{
    broadcast use Seq::lemma_filter_contains_rev, Seq::lemma_filter_pred;

    assert forall|e: AppEntryView| es.contains(e) && e.mimetypes.contains(m) implies #[trigger] es.filter(
        handles(m),
    ).contains(e) by {
        let i = choose|i: int| 0 <= i < es.len() && es[i] == e;
        es.lemma_filter_contains(handles(m), i);
    }
    assert forall|e: AppEntryView| #[trigger] es.filter(handles(m)).contains(e) implies e.mimetypes.contains(m) by {
        let i = choose|i: int| 0 <= i < es.filter(handles(m)).len() && es.filter(handles(m))[i] == e;
        es.lemma_filter_pred(handles(m), i);
    }
}

} // verus!