//! The user's default application per MIME type, read from and written back
//! to a `mimeapps.list` style configuration text.

use crate::keyed::{
    keys_distinct, lemma_map_of_dom, lemma_map_of_index, lemma_map_of_len, lemma_map_of_pairs,
    lemma_map_of_update, map_of, upsert,
};
use crate::text::{
    chars_of, find_char, index_of, is_space, lemma_index_of, range_equals, trim, trim_bounds, trim_end,
    trim_start,
};
use vstd::prelude::*;
use vstd::string::*;

verus! {

/// The header line that opens the section of default applications.
pub open spec fn section_header() -> Seq<char> {
    "[Default Applications]"@
}

/// A trimmed line of the form `[...]`, which opens a section.
pub open spec fn is_section_line(t: Seq<char>) -> bool {
    t.len() > 0 && t[0] == '[' && t.last() == ']'
}

/// The reader's state after one line: whether the default-applications
/// section is open, and the mapping read so far.
pub open spec fn apply_line(
    in_section: bool,
    m: Map<Seq<char>, Seq<char>>,
    line: Seq<char>,
) -> (bool, Map<Seq<char>, Seq<char>>) {
    let t = trim(line);
    let k = index_of(t, '=');
    if t == section_header() {
        (true, m)
    } else if is_section_line(t) {
        (false, m)
    } else if in_section && k < t.len() {
        (true, m.insert(trim(t.subrange(0, k)), trim(t.subrange(k + 1, t.len() as int))))
    } else {
        (in_section, m)
    }
}

/// The mapping read from the lines of `s`, starting in the given state.
pub open spec fn parse_from(
    s: Seq<char>,
    in_section: bool,
    m: Map<Seq<char>, Seq<char>>,
) -> Map<Seq<char>, Seq<char>>
    decreases s.len(),
{
    let k = index_of(s, '\n');
    let st = apply_line(in_section, m, s.subrange(0, k));
    if 0 <= k < s.len() {
        parse_from(s.subrange(k + 1, s.len() as int), st.0, st.1)
    } else {
        st.1
    }
}

/// The mapping that a configuration text holds.
pub open spec fn parse_config(s: Seq<char>) -> Map<Seq<char>, Seq<char>> {
    parse_from(s, false, Map::empty())
}

/// The line `key=value` and its line break.
pub open spec fn line_of(k: Seq<char>, v: Seq<char>) -> Seq<char> {
    k + "="@ + v + "\n"@
}

/// The lines `key=value`, one per pair, in order.
pub open spec fn render_pairs(p: Seq<(Seq<char>, Seq<char>)>) -> Seq<char>
    decreases p.len(),
{
    if p.len() == 0 {
        Seq::empty()
    } else {
        render_pairs(p.drop_last()) + line_of(p.last().0, p.last().1)
    }
}

/// The configuration text that holds the pairs.
pub open spec fn render_config(p: Seq<(Seq<char>, Seq<char>)>) -> Seq<char> {
    section_header() + "\n"@ + render_pairs(p)
}

/// A pair that the configuration text can carry: both parts are already
/// trimmed and hold no line break, the MIME type holds no `=`, and the line
/// does not look like a section header.
pub open spec fn writable_pair(k: Seq<char>, v: Seq<char>) -> bool {
    &&& !k.contains('\n')
    &&& !v.contains('\n')
    &&& !k.contains('=')
    &&& trim(k) == k
    &&& trim(v) == v
    &&& !(k.len() > 0 && k[0] == '[' && v.len() > 0 && v.last() == ']')
}

/// The mapping built from `m` by setting each pair of `p` in order.
pub open spec fn insert_all(m: Map<Seq<char>, Seq<char>>, p: Seq<(Seq<char>, Seq<char>)>) -> Map<
    Seq<char>,
    Seq<char>,
>
    decreases p.len(),
{
    if p.len() == 0 {
        m
    } else {
        insert_all(m, p.drop_last()).insert(p.last().0, p.last().1)
    }
}

proof fn lemma_insert_all_empty(p: Seq<(Seq<char>, Seq<char>)>)
    ensures
        insert_all(Map::empty(), p) == map_of(p),
    decreases p.len(),
{
    if p.len() > 0 {
        lemma_insert_all_empty(p.drop_last());
    }
}

proof fn lemma_insert_all_front(m: Map<Seq<char>, Seq<char>>, p: Seq<(Seq<char>, Seq<char>)>)
    requires
        p.len() > 0,
    ensures
        insert_all(m, p) == insert_all(m.insert(p[0].0, p[0].1), p.drop_first()),
    decreases p.len(),
{
    if p.len() > 1 {
        lemma_insert_all_front(m, p.drop_last());
        assert(p.drop_first().drop_last() =~= p.drop_last().drop_first());
        assert(p.drop_first().last() == p.last());
        assert(p.drop_last()[0] == p[0]);
        let m2 = m.insert(p[0].0, p[0].1);
        assert(insert_all(m2, p.drop_first()) == insert_all(m2, p.drop_first().drop_last()).insert(
            p.last().0,
            p.last().1,
        ));
    } else {
        let m2 = m.insert(p[0].0, p[0].1);
        assert(p.drop_first().len() == 0);
        assert(p.drop_last().len() == 0);
        assert(p.last() == p[0]);
        assert(insert_all(m, p.drop_last()) == m);
        assert(insert_all(m2, p.drop_first()) == m2);
    }
}

proof fn lemma_render_front(p: Seq<(Seq<char>, Seq<char>)>)
    requires
        p.len() > 0,
    ensures
        render_pairs(p) == line_of(p[0].0, p[0].1) + render_pairs(p.drop_first()),
    decreases p.len(),
{
    if p.len() > 1 {
        lemma_render_front(p.drop_last());
        assert(p.drop_first().drop_last() =~= p.drop_last().drop_first());
        assert(render_pairs(p) =~= line_of(p[0].0, p[0].1) + render_pairs(p.drop_first()));
    } else {
        assert(render_pairs(p.drop_last()) =~= Seq::<char>::empty());
        assert(render_pairs(p.drop_first()) =~= Seq::<char>::empty());
        assert(render_pairs(p) =~= line_of(p[0].0, p[0].1) + render_pairs(p.drop_first()));
    }
}

proof fn lemma_index_of_concat(a: Seq<char>, b: Seq<char>, c: char)
    requires
        !a.contains(c),
    ensures
        index_of(a + b, c) == a.len() + index_of(b, c),
    decreases a.len(),
{
    if a.len() > 0 {
        assert(a[0] != c);
        assert(!a.drop_first().contains(c)) by {
            if a.drop_first().contains(c) {
                let i = choose|i: int| 0 <= i < a.drop_first().len() && a.drop_first()[i] == c;
                assert(a[i + 1] == c);
            }
        }
        lemma_index_of_concat(a.drop_first(), b, c);
        assert((a + b).drop_first() =~= a.drop_first() + b);
    } else {
        assert(a + b =~= b);
    }
}

proof fn lemma_trim_len(s: Seq<char>)
    ensures
        trim_start(s).len() <= s.len(),
        trim_end(s).len() <= s.len(),
    decreases s.len(),
{
    if s.len() > 0 {
        lemma_trim_len(s.drop_first());
        lemma_trim_len(s.drop_last());
    }
}

/// A trimmed non-empty sequence starts and ends with a character that is
/// not whitespace.
proof fn lemma_trimmed_ends(s: Seq<char>)
    requires
        trim(s) == s,
        s.len() > 0,
    ensures
        !is_space(s[0]),
        !is_space(s.last()),
{
    lemma_trim_len(s);
    lemma_trim_len(trim_start(s));
    if is_space(s[0]) {
        lemma_trim_len(s.drop_first());
    }
    if trim_start(s) == s && is_space(s.last()) {
        lemma_trim_len(s.drop_last());
    }
}

proof fn lemma_trim_of_unspaced(s: Seq<char>)
    requires
        s.len() > 0,
        !is_space(s[0]),
        !is_space(s.last()),
    ensures
        trim(s) == s,
{
}

proof fn lemma_header_chars()
    ensures
        section_header().len() == 22,
        section_header()[0] == '[',
        section_header()[21] == ']',
        !section_header().contains('\n'),
        !section_header().contains('='),
        "="@ == seq!['='],
        "\n"@ == seq!['\n'],
{
    reveal_strlit("[Default Applications]");
    reveal_strlit("=");
    reveal_strlit("\n");
    assert("="@ =~= seq!['=']);
    assert("\n"@ =~= seq!['\n']);
}

/// Reading one written line moves the pair into the mapping and goes on
/// with the rest of the text.
proof fn lemma_parse_line(
    k: Seq<char>,
    v: Seq<char>,
    rest: Seq<char>,
    m: Map<Seq<char>, Seq<char>>,
)
    requires
        writable_pair(k, v),
    ensures
        parse_from(line_of(k, v) + rest, true, m) == parse_from(rest, true, m.insert(k, v)),
{
    lemma_header_chars();
    let t = k + "="@ + v;
    let s = line_of(k, v) + rest;
    assert(s =~= t + ("\n"@ + rest));
    assert(!t.contains('\n')) by {
        if t.contains('\n') {
            let i = choose|i: int| 0 <= i < t.len() && t[i] == '\n';
            if i < k.len() {
                assert(k[i] == '\n');
            } else if i > k.len() {
                assert(v[i - k.len() - 1] == '\n');
            }
        }
    }
    lemma_index_of_concat(t, "\n"@ + rest, '\n');
    assert(index_of("\n"@ + rest, '\n') == 0);
    let n = t.len() as int;
    assert(s.subrange(0, n) =~= t);
    assert(s.subrange(n + 1, s.len() as int) =~= rest);
    // the line is already trimmed
    if k.len() > 0 {
        lemma_trimmed_ends(k);
    }
    if v.len() > 0 {
        lemma_trimmed_ends(v);
    }
    assert(t[0] == if k.len() > 0 { k[0] } else { '=' });
    assert(t.last() == if v.len() > 0 { v.last() } else { '=' });
    lemma_trim_of_unspaced(t);
    assert(t[k.len() as int] == '=');
    assert(t != section_header()) by {
        if t == section_header() {
            assert(section_header()[k.len() as int] == '=');
        }
    }
    assert(!is_section_line(t));
    assert(t =~= k + ("="@ + v));
    lemma_index_of_concat(k, "="@ + v, '=');
    assert(index_of("="@ + v, '=') == 0);
    assert(index_of(t, '=') == k.len());
    assert(t.subrange(0, k.len() as int) =~= k);
    assert(t.subrange(k.len() as int + 1, t.len() as int) =~= v);
    assert(index_of(s, '\n') == n);
    assert(trim(s.subrange(0, n)) == t);
    assert(apply_line(true, m, s.subrange(0, n)) == (true, m.insert(k, v)));
}

proof fn lemma_parse_pairs(p: Seq<(Seq<char>, Seq<char>)>, m: Map<Seq<char>, Seq<char>>)
    requires
        forall|i: int| 0 <= i < p.len() ==> writable_pair(#[trigger] p[i].0, p[i].1),
    ensures
        parse_from(render_pairs(p), true, m) == insert_all(m, p),
    decreases p.len(),
{
    if p.len() == 0 {
        lemma_header_chars();
        assert(render_pairs(p) =~= Seq::<char>::empty());
        assert(trim(Seq::<char>::empty()) =~= Seq::<char>::empty());
        assert(Seq::<char>::empty().subrange(0, 0) =~= Seq::<char>::empty());
    } else {
        lemma_render_front(p);
        assert(writable_pair(p[0].0, p[0].1));
        lemma_parse_line(p[0].0, p[0].1, render_pairs(p.drop_first()), m);
        assert forall|i: int| 0 <= i < p.drop_first().len() implies writable_pair(
            #[trigger] p.drop_first()[i].0,
            p.drop_first()[i].1,
        ) by {
            assert(p.drop_first()[i] == p[i + 1]);
        }
        lemma_parse_pairs(p.drop_first(), m.insert(p[0].0, p[0].1));
        lemma_insert_all_front(m, p);
    }
}

/// Reading back the text written for a list of pairs gives the mapping of
/// those pairs, where each pair is one that the text can carry.
pub proof fn lemma_render_parse_round_trip(p: Seq<(Seq<char>, Seq<char>)>)
    requires
        forall|i: int| 0 <= i < p.len() ==> writable_pair(#[trigger] p[i].0, p[i].1),
    ensures
        parse_config(render_config(p)) == map_of(p),
{
    lemma_header_chars();
    let h = section_header();
    let s = render_config(p);
    assert(s =~= h + ("\n"@ + render_pairs(p)));
    lemma_index_of_concat(h, "\n"@ + render_pairs(p), '\n');
    assert(index_of("\n"@ + render_pairs(p), '\n') == 0);
    assert(s.subrange(0, 22) =~= h);
    assert(s.subrange(23, s.len() as int) =~= render_pairs(p));
    lemma_trim_of_unspaced(h);
    lemma_parse_pairs(p, Map::empty());
    lemma_insert_all_empty(p);
}

/// The default applications chosen by the user, one per MIME type.
pub struct MimetypeManager {
    user_config_path: String,
    current_defaults: Vec<(String, String)>,
}

impl MimetypeManager {
    /// The (MIME type, application) pairs, in the order in which they are
    /// written out.
    pub closed spec fn pairs(&self) -> Seq<(Seq<char>, Seq<char>)> {
        self.current_defaults@.map_values(|p: (String, String)| (p.0@, p.1@))
    }

    /// The mapping from MIME type to application.
    pub open spec fn defaults(&self) -> Map<Seq<char>, Seq<char>> {
        map_of(self.pairs())
    }

    pub closed spec fn config_path_view(&self) -> Seq<char> {
        self.user_config_path@
    }

    /// No MIME type occurs in two pairs.
    pub open spec fn wf(&self) -> bool {
        keys_distinct(self.pairs())
    }

    /// The pairs that the text is written from are the entries of the
    /// mapping, each exactly once: one line per MIME type that has a default,
    /// and none for another.
    pub proof fn lemma_pairs_are_defaults(&self)
        requires
            self.wf(),
        ensures
            self.defaults().dom().finite(),
            self.pairs().len() == self.defaults().dom().len(),
            forall|i: int|
                0 <= i < self.pairs().len() ==> #[trigger] self.defaults().contains_key(
                    self.pairs()[i].0,
                ) && self.defaults()[self.pairs()[i].0] == self.pairs()[i].1,
            forall|k: Seq<char>| #[trigger]
                self.defaults().contains_key(k) ==> self.pairs().contains((k, self.defaults()[k])),
    {
        lemma_map_of_len(self.pairs());
        lemma_map_of_pairs(self.pairs());
    }

    /// Saving and reading back gives the same mapping: the text that
    /// `render_defaults` writes holds exactly the current mapping, where each
    /// entry is one that the text can carry.
    pub proof fn lemma_save_reload(&self)
        requires
            self.wf(),
            forall|k: Seq<char>| #[trigger]
                self.defaults().contains_key(k) ==> writable_pair(k, self.defaults()[k]),
        ensures
            parse_config(render_config(self.pairs())) == self.defaults(),
    {
        lemma_map_of_pairs(self.pairs());
        assert forall|i: int| 0 <= i < self.pairs().len() implies writable_pair(
            #[trigger] self.pairs()[i].0,
            self.pairs()[i].1,
        ) by {
            assert(self.defaults().contains_key(self.pairs()[i].0));
        }
        lemma_render_parse_round_trip(self.pairs());
    }

    /// A manager for the configuration file at `user_config_path`, holding
    /// the mapping that `content` gives; `None` stands for a file that does
    /// not exist, which holds no mapping.
    pub fn new(user_config_path: String, content: Option<&str>) -> (r: Self)
        ensures
            r.wf(),
            r.config_path_view() == user_config_path@,
            content is None ==> r.pairs() == Seq::<(Seq<char>, Seq<char>)>::empty(),
            r.defaults() == match content {
                Some(c) => parse_config(c@),
                None => Map::empty(),
            },
    {
        let mut r = MimetypeManager { user_config_path, current_defaults: Vec::new() };
        assert(r.pairs() == Seq::<(Seq<char>, Seq<char>)>::empty());
        match content {
            Some(c) => {
                r.load_current_defaults(c);
            },
            None => {},
        }
        r
    }

    /// Reads each line of the default-applications section of `content` into
    /// the mapping.
    fn load_current_defaults(&mut self, content: &str)
        requires
            old(self).wf(),
        ensures
            final(self).wf(),
            final(self).defaults() == parse_from(content@, false, old(self).defaults()),
            final(self).user_config_path == old(self).user_config_path,
    {
        let c = chars_of(content);
        let header = chars_of("[Default Applications]");
        let n = c.len();
        let mut p: usize = 0;
        let mut in_section = false;
        let mut done = false;
        assert(c@.subrange(0, n as int) == c@);
        while !done
            invariant
                c@ == content@,
                n == c.len(),
                header@ == section_header(),
                p <= n,
                self.wf(),
                self.user_config_path == old(self).user_config_path,
                !done ==> parse_from(c@.subrange(p as int, n as int), in_section, self.defaults())
                    == parse_from(content@, false, old(self).defaults()),
                done ==> self.defaults() == parse_from(content@, false, old(self).defaults()),
            decreases n - p + (if done { 0int } else { 1int }),
        {
            let ghost s = c@.subrange(p as int, n as int);
            let ghost before = self.defaults();
            let k = find_char(&c, p, n, '\n');
            assert(c@.subrange(p as int, k as int) == s.subrange(0, index_of(s, '\n')));
            let (lo, hi) = trim_bounds(&c, p, k);
            let ghost t = c@.subrange(lo as int, hi as int);
            proof {
                lemma_index_of(t, '=');
            }
            if range_equals(&c, lo, hi, &header) {
                in_section = true;
            } else if hi > lo && c[lo] == '[' && c[hi - 1] == ']' {
                in_section = false;
            } else if in_section {
                let e = find_char(&c, lo, hi, '=');
                if e < hi {
                    let (kl, kh) = trim_bounds(&c, lo, e);
                    let (vl, vh) = trim_bounds(&c, e + 1, hi);
                    assert(c@.subrange(lo as int, e as int) == t.subrange(0, e - lo));
                    assert(c@.subrange(e + 1, hi as int) == t.subrange(e - lo + 1, t.len() as int));
                    let key = String::from_str(content.substring_char(kl, kh));
                    let app = String::from_str(content.substring_char(vl, vh));
                    self.put(key, app);
                }
            }
            if k < n {
                assert(c@.subrange(k + 1, n as int) == s.subrange(index_of(s, '\n') + 1, s.len() as int));
                p = k + 1;
            } else {
                done = true;
            }
        }
    }

    /// The application chosen for exactly `mimetype`, if any.
    pub fn get_default_app(&self, mimetype: &str) -> (r: Option<&String>)
        requires
            self.wf(),
        ensures
            r is Some <==> self.defaults().contains_key(mimetype@),
            r is Some ==> r->0@ == self.defaults()[mimetype@],
    {
        proof {
            lemma_map_of_dom(self.pairs());
        }
        match self.find(mimetype) {
            Some(i) => {
                proof {
                    lemma_map_of_index(self.pairs(), i as int);
                }
                Some(&self.current_defaults[i].1)
            },
            None => None,
        }
    }

    /// Chooses `desktop_file` for `mimetype`, replacing an earlier choice, and
    /// returns the configuration text to be written out in full.
    pub fn set_default_app(&mut self, mimetype: &str, desktop_file: &str) -> (contents: String)
        requires
            old(self).wf(),
        ensures
            final(self).wf(),
            final(self).defaults() == old(self).defaults().insert(mimetype@, desktop_file@),
            final(self).pairs() == upsert(old(self).pairs(), mimetype@, desktop_file@),
            final(self).config_path_view() == old(self).config_path_view(),
            contents@ == render_config(final(self).pairs()),
    {
        self.put(String::from_str(mimetype), String::from_str(desktop_file));
        self.render_defaults()
    }

    /// The MIME types that have a default application, each once.
    pub fn get_all_mimetypes(&self) -> (r: Vec<String>)
        requires
            self.wf(),
        ensures
            r.deep_view().no_duplicates(),
            r.deep_view().to_set() == self.defaults().dom(),
    {
        let ghost keys = self.pairs().map_values(|p: (Seq<char>, Seq<char>)| p.0);
        let mut r: Vec<String> = Vec::new();
        let mut i: usize = 0;
        while i < self.current_defaults.len()
            invariant
                i <= self.current_defaults.len(),
                keys.len() == self.current_defaults.len(),
                keys == self.pairs().map_values(|p: (Seq<char>, Seq<char>)| p.0),
                r.deep_view() == keys.subrange(0, i as int),
            decreases self.current_defaults.len() - i,
        {
            let ghost old_r = r.deep_view();
            let x = self.current_defaults[i].0.clone();
            assert(keys[i as int] == x@);
            r.push(x);
            assert(r.deep_view() =~= old_r.push(x@));
            i = i + 1;
            assert(r.deep_view() =~= keys.subrange(0, i as int));
        }
        proof {
            lemma_map_of_dom(self.pairs());
            assert(r.deep_view() =~= keys);
            assert(r.deep_view().to_set() =~= self.defaults().dom()) by {
                assert forall|k: Seq<char>| #[trigger] self.defaults().dom().contains(k) implies r.deep_view().to_set().contains(k) by {
                    let j = choose|j: int| 0 <= j < self.pairs().len() && self.pairs()[j].0 == k;
                    assert(keys[j] == k);
                }
            }
        }
        r
    }

    /// The configuration text that holds the current mapping: the section
    /// header, then one `mimetype=application` line per MIME type.
    pub fn render_defaults(&self) -> (r: String)
        ensures
            r@ == render_config(self.pairs()),
    {
        let mut r = String::from_str("[Default Applications]");
        r.append("\n");
        let mut i: usize = 0;
        while i < self.current_defaults.len()
            invariant
                i <= self.current_defaults.len(),
                r@ == section_header() + "\n"@ + render_pairs(self.pairs().subrange(0, i as int)),
            decreases self.current_defaults.len() - i,
        {
            r.append(self.current_defaults[i].0.as_str());
            r.append("=");
            r.append(self.current_defaults[i].1.as_str());
            r.append("\n");
            proof {
                let q = self.pairs().subrange(0, i + 1);
                assert(q.drop_last() == self.pairs().subrange(0, i as int));
                assert(r@ =~= section_header() + "\n"@ + render_pairs(q));
            }
            i = i + 1;
        }
        assert(self.pairs().subrange(0, i as int) == self.pairs());
        r
    }

    /// Where the configuration file lives.
    pub fn config_path(&self) -> (r: &String)
        ensures
            r@ == self.config_path_view(),
    {
        &self.user_config_path
    }

    fn find(&self, mimetype: &str) -> (r: Option<usize>)
        ensures
            match r {
                Some(i) => i < self.pairs().len() && self.pairs()[i as int].0 == mimetype@,
                None => forall|i: int| 0 <= i < self.pairs().len() ==> self.pairs()[i].0 != mimetype@,
            },
    {
        let key = String::from_str(mimetype);
        let mut i: usize = 0;
        while i < self.current_defaults.len()
            invariant
                key@ == mimetype@,
                i <= self.current_defaults.len(),
                forall|j: int| 0 <= j < i ==> self.pairs()[j].0 != mimetype@,
            decreases self.current_defaults.len() - i,
        {
            if self.current_defaults[i].0 == key {
                return Some(i);
            }
            i = i + 1;
        }
        None
    }

    fn put(&mut self, mimetype: String, app: String)
        requires
            old(self).wf(),
        ensures
            final(self).wf(),
            final(self).pairs() == upsert(old(self).pairs(), mimetype@, app@),
            final(self).defaults() == old(self).defaults().insert(mimetype@, app@),
            final(self).user_config_path == old(self).user_config_path,
    {
        let ghost p = self.pairs();
        match self.find(mimetype.as_str()) {
            Some(i) => {
                proof {
                    lemma_map_of_update(p, i as int, app@);
                }
                self.current_defaults.set(i, (mimetype, app));
                assert(self.pairs() == p.update(i as int, (p[i as int].0, app@)));
                assert(upsert(p, mimetype@, app@) == p.update(i as int, (mimetype@, app@)));
            },
            None => {
                self.current_defaults.push((mimetype, app));
                assert(self.pairs() == p.push((mimetype@, app@)));
                assert(self.pairs().drop_last() == p);
            },
        }
    }
}

} // verus!
