//! The key file: an ordered list of comment lines, blank lines and
//! `<serial>::<key path>` mappings, read and written line for line.
use vstd::prelude::*;

use crate::text::{chars_of, lines, push_char, split_lines, string_of, trim, trim_range};

verus! {

// ----------------------------------------------------------------------------
// Model
// ----------------------------------------------------------------------------

/// What one line of the key file holds, as text.
pub enum EntryView {
    Comment(Seq<char>),
    Blank,
    Mapping { serial: Seq<char>, key: Seq<char> },
}

/// One line of the key file.
#[derive(Debug)]
pub enum ConfigEntry {
    Comment(String),
    Blank,
    Mapping { serial: String, key: String },
}

impl View for ConfigEntry {
    type V = EntryView;

    open spec fn view(&self) -> EntryView {
        match self {
            ConfigEntry::Comment(text) => EntryView::Comment(text@),
            ConfigEntry::Blank => EntryView::Blank,
            ConfigEntry::Mapping { serial, key } => EntryView::Mapping {
                serial: serial@,
                key: key@,
            },
        }
    }
}

/// The key file's entries, in file order. Duplicate serials are kept.
pub struct Config {
    entries: Vec<ConfigEntry>,
}

impl View for Config {
    type V = Seq<EntryView>;

    closed spec fn view(&self) -> Seq<EntryView> {
        self.entries@.map_values(|e: ConfigEntry| e@)
    }
}

impl Config {
    /// The view lines up with the stored entries.
    proof fn lemma_view(&self)
        ensures
            self@.len() == self.entries.len(),
            forall|i: int| 0 <= i < self.entries.len() ==> #[trigger] self@[i] == self.entries@[i]@,
    {
    }
}

/// Why a key file could not be read.
#[derive(Debug, PartialEq, Eq)]
pub enum ConfigError {
    /// The line with this (1-based) number is neither blank, a comment nor a
    /// `<serial>::<key path>` mapping.
    MalformedLine(usize),
}

// ----------------------------------------------------------------------------
// Specifications
// ----------------------------------------------------------------------------

/// Whether `e` is a mapping for `serial`.
pub open spec fn maps_serial(e: EntryView, serial: Seq<char>) -> bool {
    e matches EntryView::Mapping { serial: s, .. } && s == serial
}

/// The index of the first mapping at or after `i` whose serial is `serial`.
pub open spec fn first_mapping_from(es: Seq<EntryView>, serial: Seq<char>, i: int) -> Option<int>
    decreases es.len() - i,
{
    if i >= es.len() {
        None
    } else if maps_serial(es[i], serial) {
        Some(i)
    } else {
        first_mapping_from(es, serial, i + 1)
    }
}

/// The index of the first mapping whose serial is `serial`.
pub open spec fn first_mapping(es: Seq<EntryView>, serial: Seq<char>) -> Option<int> {
    first_mapping_from(es, serial, 0)
}

/// The key of the first mapping for `serial`: the one a lookup uses.
pub open spec fn lookup(es: Seq<EntryView>, serial: Seq<char>) -> Option<Seq<char>> {
    match first_mapping(es, serial) {
        Some(i) => Some(es[i]->key),
        None => None,
    }
}

/// `es` with the first mapping for `serial` pointed at `key`, or with a new
/// mapping appended when there is none.
pub open spec fn upsert(es: Seq<EntryView>, serial: Seq<char>, key: Seq<char>) -> Seq<EntryView> {
    match first_mapping(es, serial) {
        Some(i) => es.update(i, EntryView::Mapping { serial, key }),
        None => es.push(EntryView::Mapping { serial, key }),
    }
}

/// The index of the `n`th (0-based) mapping at or after index `i`.
pub open spec fn nth_mapping_from(es: Seq<EntryView>, n: int, i: int) -> Option<int>
    decreases es.len() - i,
{
    if i >= es.len() {
        None
    } else if es[i] is Mapping {
        if n == 0 {
            Some(i)
        } else {
            nth_mapping_from(es, n - 1, i + 1)
        }
    } else {
        nth_mapping_from(es, n, i + 1)
    }
}

/// The index of the `n`th (0-based) mapping, among mappings only.
pub open spec fn nth_mapping(es: Seq<EntryView>, n: int) -> Option<int> {
    nth_mapping_from(es, n, 0)
}

/// The `(serial, key)` pairs of the mappings at index `i` or later, in order.
pub open spec fn mapping_pairs_from(es: Seq<EntryView>, i: int) -> Seq<(Seq<char>, Seq<char>)>
    decreases es.len() - i,
{
    if i >= es.len() {
        seq![]
    } else {
        match es[i] {
            EntryView::Mapping { serial, key } => seq![(serial, key)] + mapping_pairs_from(es, i + 1),
            _ => mapping_pairs_from(es, i + 1),
        }
    }
}

/// The `(serial, key)` pairs of the mappings, in order.
pub open spec fn mapping_pairs(es: Seq<EntryView>) -> Seq<(Seq<char>, Seq<char>)> {
    mapping_pairs_from(es, 0)
}

/// The number of mappings.
pub open spec fn mapping_count(es: Seq<EntryView>) -> nat {
    mapping_pairs(es).len()
}

/// Whether the mapping at `i` repeats the serial of an earlier mapping, so
/// that lookups never reach it.
pub open spec fn is_shadowed(es: Seq<EntryView>, i: int) -> bool {
    &&& 0 <= i < es.len()
    &&& es[i] is Mapping
    &&& first_mapping(es, es[i]->serial) != Some(i)
}

/// The indices at or after `i` of shadowed mappings, in increasing order.
pub open spec fn shadowed_from(es: Seq<EntryView>, i: int) -> Seq<int>
    decreases es.len() - i,
{
    if i >= es.len() {
        seq![]
    } else if is_shadowed(es, i) {
        seq![i] + shadowed_from(es, i + 1)
    } else {
        shadowed_from(es, i + 1)
    }
}

/// The separator between serial and key path.
pub open spec fn separator() -> Seq<char> {
    seq![':', ':']
}

/// The index of the first `::` in `t` at or after `i`, or `t.len()`.
pub open spec fn find_sep(t: Seq<char>, i: int) -> int
    decreases t.len() - i,
{
    if i + 1 >= t.len() {
        t.len() as int
    } else if t[i] == ':' && t[i + 1] == ':' {
        i
    } else {
        find_sep(t, i + 1)
    }
}

/// What a single line reads as: blank when it is all whitespace, a comment
/// (kept as written) when its first non-blank character is `#`, else the
/// trimmed text around its first `::`. `None` when there is no `::`.
pub open spec fn parse_line(line: Seq<char>) -> Option<EntryView> {
    let t = trim(line);
    if t.len() == 0 {
        Some(EntryView::Blank)
    } else if t[0] == '#' {
        Some(EntryView::Comment(line))
    } else {
        let p = find_sep(t, 0);
        if p < t.len() {
            Some(EntryView::Mapping { serial: trim(t.take(p)), key: trim(t.skip(p + 2)) })
        } else {
            None
        }
    }
}

/// The entries of a sequence of lines, one per line, or the 1-based number of
/// the first line that does not parse.
pub open spec fn parse_lines(ls: Seq<Seq<char>>) -> Result<Seq<EntryView>, nat>
    decreases ls.len(),
{
    if ls.len() == 0 {
        Ok(seq![])
    } else {
        match parse_line(ls[0]) {
            None => Err(1),
            Some(e) => match parse_lines(ls.drop_first()) {
                Ok(es) => Ok(seq![e] + es),
                Err(n) => Err(n + 1),
            },
        }
    }
}

/// What a key file's text reads as.
pub open spec fn parse_text(content: Seq<char>) -> Result<Seq<EntryView>, nat> {
    parse_lines(lines(content))
}

/// The text of one entry, without its line feed.
pub open spec fn render_line(e: EntryView) -> Seq<char> {
    match e {
        EntryView::Comment(text) => text,
        EntryView::Blank => seq![],
        EntryView::Mapping { serial, key } => serial + separator() + key,
    }
}

/// The text of a key file: each entry's line followed by a line feed.
pub open spec fn render(es: Seq<EntryView>) -> Seq<char>
    decreases es.len(),
{
    if es.len() == 0 {
        seq![]
    } else {
        render_line(es[0]) + seq!['\n'] + render(es.drop_first())
    }
}

/// `r` with the entries `pre` put before its entries, and its line number
/// moved on by `k` when it is an error.
pub open spec fn after_prefix(pre: Seq<EntryView>, r: Result<Seq<EntryView>, nat>, k: nat) -> Result<
    Seq<EntryView>,
    nat,
> {
    match r {
        Ok(es) => Ok(pre + es),
        Err(n) => Err(n + k),
    }
}

// ----------------------------------------------------------------------------
// Lemmas
// ----------------------------------------------------------------------------

/// `first_mapping_from` finds the first mapping for the serial at or after
/// `i`, and finds nothing only when there is none.
pub proof fn lemma_first_mapping_from(es: Seq<EntryView>, serial: Seq<char>, i: int)
    requires
        0 <= i,
    ensures
        first_mapping_from(es, serial, i) matches Some(j) ==> i <= j < es.len() && es[j] is Mapping
            && es[j]->serial == serial && maps_serial(es[j], serial) && forall|k: int|
            i <= k < j ==> !maps_serial(#[trigger] es[k], serial),
        first_mapping_from(es, serial, i) is None ==> forall|k: int|
            i <= k < es.len() ==> !maps_serial(#[trigger] es[k], serial),
    decreases es.len() - i,
{
    if i < es.len() {
        lemma_first_mapping_from(es, serial, i + 1);
    }
}

/// The first mapping for the serial at or after `i` is what
/// `first_mapping_from` finds.
pub proof fn lemma_first_mapping_is(es: Seq<EntryView>, serial: Seq<char>, i: int, j: Option<int>)
    requires
        0 <= i,
        j matches Some(jj) ==> i <= jj < es.len() && maps_serial(es[jj], serial) && forall|k: int|
            i <= k < jj ==> !maps_serial(#[trigger] es[k], serial),
        j is None ==> forall|k: int| i <= k < es.len() ==> !maps_serial(#[trigger] es[k], serial),
    ensures
        first_mapping_from(es, serial, i) == j,
    decreases es.len() - i,
{
    if i < es.len() {
        if !maps_serial(es[i], serial) {
            lemma_first_mapping_is(es, serial, i + 1, j);
        } else {
            assert(!maps_serial(es[i], serial) || j == Some(i));
        }
    }
}

/// `nth_mapping_from` lands on an entry at or after `i`.
pub proof fn lemma_nth_mapping_from(es: Seq<EntryView>, n: int, i: int)
    requires
        0 <= i,
    ensures
        nth_mapping_from(es, n, i) matches Some(j) ==> i <= j < es.len() && es[j] is Mapping,
    decreases es.len() - i,
{
    if i < es.len() {
        if es[i] is Mapping {
            if n != 0 {
                lemma_nth_mapping_from(es, n - 1, i + 1);
            }
        } else {
            lemma_nth_mapping_from(es, n, i + 1);
        }
    }
}

/// `find_sep` finds a `::` when it finds anything.
pub proof fn lemma_find_sep(t: Seq<char>, i: int)
    requires
        0 <= i,
    ensures
        i <= find_sep(t, i) <= t.len() || find_sep(t, i) == t.len(),
        find_sep(t, i) < t.len() ==> find_sep(t, i) + 1 < t.len() && t[find_sep(t, i)] == ':'
            && t[find_sep(t, i) + 1] == ':',
    decreases t.len() - i,
{
    if i + 1 < t.len() && !(t[i] == ':' && t[i + 1] == ':') {
        lemma_find_sep(t, i + 1);
    }
}

// ----------------------------------------------------------------------------
// Executable code
// ----------------------------------------------------------------------------

impl Config {
    /// An empty configuration.
    pub fn new() -> (r: Self)
        ensures
            r@ == Seq::<EntryView>::empty(),
    {
        let r = Config { entries: Vec::new() };
        assert(r@ =~= Seq::<EntryView>::empty());
        r
    }

    /// The index of the first mapping for `serial`.
    fn position_of(&self, serial: &String) -> (r: Option<usize>)
        ensures
            match first_mapping(self@, serial@) {
                Some(i) => r == Some(i as usize),
                None => r is None,
            },
    {
        let mut i: usize = 0;
        while i < self.entries.len()
            invariant
                i <= self.entries.len(),
                first_mapping(self@, serial@) == first_mapping_from(self@, serial@, i as int),
            decreases self.entries.len() - i,
        {
            let found = match &self.entries[i] {
                ConfigEntry::Mapping { serial: s, .. } => *s == *serial,
                _ => false,
            };
            assert(self@[i as int] == self.entries@[i as int]@);
            if found {
                return Some(i);
            }
            i += 1;
        }
        None
    }

    /// The key of the first mapping for `serial`.
    pub fn get(&self, serial: &str) -> (r: Option<&str>)
        ensures
            match lookup(self@, serial@) {
                Some(k) => r matches Some(x) && x@ == k,
                None => r is None,
            },
    {
        let target = serial.to_owned();
        proof {
            lemma_first_mapping_from(self@, serial@, 0);
            self.lemma_view();
        }
        match self.position_of(&target) {
            Some(i) => {
                assert(self@[i as int] == self.entries@[i as int]@);
                match &self.entries[i] {
                    ConfigEntry::Mapping { key, .. } => Some(key.as_str()),
                    _ => None,
                }
            },
            None => None,
        }
    }

    /// Points the first mapping for `serial` at `key`, or appends a new mapping
    /// when there is none.
    pub fn insert(&mut self, serial: String, key: String)
        ensures
            final(self)@ == upsert(old(self)@, serial@, key@),
    {
        proof {
            lemma_first_mapping_from(self@, serial@, 0);
            self.lemma_view();
        }
        match self.position_of(&serial) {
            Some(i) => {
                let ghost prev = self@;
                self.entries.set(i, ConfigEntry::Mapping { serial, key });
                assert(self@ =~= prev.update(i as int, EntryView::Mapping { serial: serial@, key: key@ }));
            },
            None => {
                self.push_mapping(serial, key);
            },
        }
    }

    /// Appends a mapping as it stands, keeping duplicates.
    fn push_mapping(&mut self, serial: String, key: String)
        ensures
            final(self)@ == old(self)@.push(EntryView::Mapping { serial: serial@, key: key@ }),
    {
        let ghost prev = self@;
        self.entries.push(ConfigEntry::Mapping { serial, key });
        assert(self@ =~= prev.push(EntryView::Mapping { serial: serial@, key: key@ }));
    }

    /// Appends a comment line, written as `text`.
    pub fn push_comment(&mut self, text: String)
        ensures
            final(self)@ == old(self)@.push(EntryView::Comment(text@)),
    {
        let ghost prev = self@;
        self.entries.push(ConfigEntry::Comment(text));
        assert(self@ =~= prev.push(EntryView::Comment(text@)));
    }

    /// Appends a blank line.
    pub fn push_blank(&mut self)
        ensures
            final(self)@ == old(self)@.push(EntryView::Blank),
    {
        let ghost prev = self@;
        self.entries.push(ConfigEntry::Blank);
        assert(self@ =~= prev.push(EntryView::Blank));
    }

    /// All entries, in file order.
    pub fn entries(&self) -> (r: &[ConfigEntry])
        ensures
            r@.map_values(|e: ConfigEntry| e@) == self@,
    {
        self.entries.as_slice()
    }

    /// The `(serial, key)` of each mapping, in file order.
    pub fn mappings(&self) -> (r: Vec<(String, String)>)
        ensures
            r.deep_view() == mapping_pairs(self@),
    {
        let mut r: Vec<(String, String)> = Vec::new();
        let mut i: usize = 0;
        proof {
            self.lemma_view();
        }
        assert(r.deep_view() + mapping_pairs(self@) =~= mapping_pairs(self@));
        while i < self.entries.len()
            invariant
                i <= self.entries.len(),
                self@.len() == self.entries.len(),
                mapping_pairs(self@) == r.deep_view() + mapping_pairs_from(self@, i as int),
            decreases self.entries.len() - i,
        {
            assert(self@[i as int] == self.entries@[i as int]@);
            match &self.entries[i] {
                ConfigEntry::Mapping { serial, key } => {
                    let ghost prev = r.deep_view();
                    r.push((serial.clone(), key.clone()));
                    assert(r.deep_view() =~= prev.push((serial@, key@)));
                    assert(prev.push((serial@, key@)) + mapping_pairs_from(self@, i + 1) =~= prev
                        + (seq![(serial@, key@)] + mapping_pairs_from(self@, i + 1)));
                },
                _ => {},
            }
            i += 1;
        }
        assert(r.deep_view() + Seq::<(Seq<char>, Seq<char>)>::empty() =~= r.deep_view());
        r
    }

    /// The index of the `n`th (0-based) mapping among the entries.
    fn nth_mapping_index(&self, n: usize) -> (r: Option<usize>)
        ensures
            match nth_mapping(self@, n as int) {
                Some(p) => r == Some(p as usize),
                None => r is None,
            },
    {
        let mut i: usize = 0;
        let mut seen: usize = 0;
        proof {
            self.lemma_view();
        }
        while i < self.entries.len()
            invariant
                i <= self.entries.len(),
                seen <= n,
                self@.len() == self.entries.len(),
                nth_mapping(self@, n as int) == nth_mapping_from(self@, n - seen, i as int),
            decreases self.entries.len() - i,
        {
            let is_map = match &self.entries[i] {
                ConfigEntry::Mapping { .. } => true,
                _ => false,
            };
            assert(self@[i as int] == self.entries@[i as int]@);
            if is_map {
                if seen == n {
                    return Some(i);
                }
                seen += 1;
            }
            i += 1;
        }
        None
    }

    /// Removes the `n`th mapping (0-based, counting mappings only) and leaves
    /// every other entry as it was. Returns whether there was one to remove.
    pub fn remove_nth_mapping(&mut self, n: usize) -> (r: bool)
        ensures
            match nth_mapping(old(self)@, n as int) {
                Some(p) => r && final(self)@ == old(self)@.remove(p),
                None => !r && final(self)@ == old(self)@,
            },
    {
        proof {
            lemma_nth_mapping_from(self@, n as int, 0);
            self.lemma_view();
        }
        match self.nth_mapping_index(n) {
            Some(i) => {
                let ghost prev = self@;
                self.entries.remove(i);
                assert(self@ =~= prev.remove(i as int));
                true
            },
            None => false,
        }
    }

    /// Whether no entry is a mapping. Comments and blank lines may remain.
    pub fn has_no_mappings(&self) -> (r: bool)
        ensures
            r == (forall|i: int| 0 <= i < self@.len() ==> !(#[trigger] self@[i] is Mapping)),
    {
        let mut i: usize = 0;
        while i < self.entries.len()
            invariant
                i <= self.entries.len(),
                forall|k: int| 0 <= k < i ==> !(#[trigger] self@[k] is Mapping),
            decreases self.entries.len() - i,
        {
            assert(self@[i as int] == self.entries@[i as int]@);
            if let ConfigEntry::Mapping { .. } = &self.entries[i] {
                return false;
            }
            i += 1;
        }
        true
    }

    /// The indices of mappings whose serial an earlier mapping already has;
    /// lookups never reach them.
    pub fn shadowed_mappings(&self) -> (r: Vec<usize>)
        ensures
            r@.map_values(|i: usize| i as int) == shadowed_from(self@, 0),
    {
        let mut r: Vec<usize> = Vec::new();
        let mut i: usize = 0;
        while i < self.entries.len()
            invariant
                i <= self.entries.len(),
                shadowed_from(self@, 0) == r@.map_values(|i: usize| i as int) + shadowed_from(
                    self@,
                    i as int,
                ),
            decreases self.entries.len() - i,
        {
            assert(self@[i as int] == self.entries@[i as int]@);
            let shadowed = match &self.entries[i] {
                ConfigEntry::Mapping { serial, .. } => match self.position_of(serial) {
                    Some(p) => p != i,
                    None => true,
                },
                _ => false,
            };
            proof {
                self.lemma_view();
                lemma_first_mapping_from(self@, self@[i as int]->serial, 0);
            }
            assert(shadowed == is_shadowed(self@, i as int));
            let ghost prev = r@.map_values(|i: usize| i as int);
            if shadowed {
                r.push(i);
                assert(r@.map_values(|i: usize| i as int) =~= prev.push(i as int));
                assert(prev.push(i as int) + shadowed_from(self@, i + 1) =~= prev + (seq![
                    i as int,
                ] + shadowed_from(self@, i + 1)));
            }
            i += 1;
        }
        r
    }
}

impl Default for Config {
    fn default() -> (r: Self)
        ensures
            r@ == Seq::<EntryView>::empty(),
    {
        Self::new()
    }
}

/// The index of the first `::` in `v[a..b]`, counted in `v`, or `b`.
fn find_separator(v: &Vec<char>, a: usize, b: usize) -> (p: usize)
    requires
        a <= b <= v.len(),
    ensures
        a <= p <= b,
        p - a == find_sep(v@.subrange(a as int, b as int), 0),
{
    let ghost t = v@.subrange(a as int, b as int);
    let mut q = a;
    while b - q > 1
        invariant
            a <= q <= b <= v.len(),
            t == v@.subrange(a as int, b as int),
            find_sep(t, 0) == find_sep(t, q - a),
        decreases b - q,
    {
        if v[q] == ':' && v[q + 1] == ':' {
            return q;
        }
        q += 1;
    }
    b
}

/// Reads one line.
fn parse_one_line(line: &Vec<char>) -> (r: Option<ConfigEntry>)
    ensures
        match parse_line(line@) {
            Some(e) => r matches Some(x) && x@ == e,
            None => r is None,
        },
{
    let (a, b) = trim_range(line, 0, line.len());
    assert(line@.subrange(0, line.len() as int) =~= line@);
    let ghost t = line@.subrange(a as int, b as int);
    if a == b {
        return Some(ConfigEntry::Blank);
    }
    if line[a] == '#' {
        return Some(ConfigEntry::Comment(string_of(line, 0, line.len())));
    }
    let p = find_separator(line, a, b);
    proof {
        lemma_find_sep(t, 0);
    }
    if p == b {
        return None;
    }
    let (s0, s1) = trim_range(line, a, p);
    let (k0, k1) = trim_range(line, p + 2, b);
    assert(t.take(p - a) =~= line@.subrange(a as int, p as int));
    assert(t.skip(p - a + 2) =~= line@.subrange(p + 2, b as int));
    Some(
        ConfigEntry::Mapping { serial: string_of(line, s0, s1), key: string_of(line, k0, k1) },
    )
}

/// Reads a key file's text: one entry per line, in order; duplicate serials
/// are kept. Fails on the first line that is neither blank, a comment nor a
/// mapping, naming its 1-based number.
pub fn parse_config(content: &str) -> (r: Result<Config, ConfigError>)
    ensures
        match parse_text(content@) {
            Ok(es) => r matches Ok(c) && c@ == es,
            Err(n) => r matches Err(ConfigError::MalformedLine(m)) && m == n,
        },
{
    let v = chars_of(content);
    let ls = split_lines(&v);
    let ghost all = ls.deep_view();
    let mut output = Config::new();
    let mut k: usize = 0;
    assert(all.skip(0) =~= all);
    assert(output@ + Seq::<EntryView>::empty() =~= output@);
    while k < ls.len()
        invariant
            k <= ls.len(),
            all == ls.deep_view(),
            all == lines(content@),
            parse_lines(all) == after_prefix(output@, parse_lines(all.skip(k as int)), k as nat),
        decreases ls.len() - k,
    {
        let ghost rest = all.skip(k as int);
        assert(rest[0] == ls[k as int]@);
        assert(rest.drop_first() =~= all.skip(k + 1));
        match parse_one_line(&ls[k]) {
            None => {
                return Err(ConfigError::MalformedLine(k + 1));
            },
            Some(entry) => {
                let ghost prev = output@;
                let ghost e = entry@;
                match entry {
                    ConfigEntry::Comment(text) => output.push_comment(text),
                    ConfigEntry::Blank => output.push_blank(),
                    ConfigEntry::Mapping { serial, key } => output.push_mapping(serial, key),
                }
                assert(output@ == prev.push(e));
                assert forall|es: Seq<EntryView>| #![auto]
                    prev + (seq![e] + es) == prev.push(e) + es by {
                    assert(prev + (seq![e] + es) =~= prev.push(e) + es);
                }
            },
        }
        k += 1;
    }
    assert(all.skip(k as int) =~= Seq::<Seq<char>>::empty());
    assert(output@ + Seq::<EntryView>::empty() =~= output@);
    Ok(output)
}

/// Writes a configuration back as text: each entry on its own line, each
/// line ended by a line feed, mappings as `<serial>::<key>`.
pub fn serialise_config(cfg: &Config) -> (r: String)
    ensures
        r@ == render(cfg@),
{
    let mut output = String::new();
    let mut i: usize = 0;
    assert(cfg@.skip(0) =~= cfg@);
    while i < cfg.entries.len()
        invariant
            i <= cfg.entries.len(),
            render(cfg@) == output@ + render(cfg@.skip(i as int)),
        decreases cfg.entries.len() - i,
    {
        let ghost prev = output@;
        let ghost rest = cfg@.skip(i as int);
        assert(rest.drop_first() =~= cfg@.skip(i + 1));
        match &cfg.entries[i] {
            ConfigEntry::Comment(text) => {
                output.append(text.as_str());
            },
            ConfigEntry::Blank => {},
            ConfigEntry::Mapping { serial, key } => {
                output.append(serial.as_str());
                push_char(&mut output, ':');
                push_char(&mut output, ':');
                output.append(key.as_str());
            },
        }
        push_char(&mut output, '\n');
        assert(output@ =~= prev + render_line(rest[0]) + seq!['\n']);
        assert(prev + render(rest) =~= output@ + render(cfg@.skip(i + 1)));
        i += 1;
    }
    assert(cfg@.skip(i as int) =~= Seq::<EntryView>::empty());
    assert(output@ + Seq::<char>::empty() =~= output@);
    output
}

} // verus!
