//! The tree view of an index: starting at a root path, each directory's
//! cached files and known subdirectories are merged into one listing,
//! filtered (hidden names, ignore patterns), put in collation order, and
//! printed with connectors and indentation.

use crate::state::{has_key, info_of, rank, FileInfo, Record, ScanState};
use crate::text::{chars_of, push_char, push_text, string_from_chars, text_less};
use std::cmp::Ordering;
use vstd::prelude::*;

verus! {

/// glob's compiled pattern, held opaquely.
#[verifier::external_type_specification]
#[verifier::external_body]
pub struct ExPattern(glob::Pattern);

/// icu_collator's collator, held opaquely.
#[verifier::external_type_specification]
#[verifier::external_body]
pub struct ExCollatorBorrowed<'a>(icu_collator::CollatorBorrowed<'a>);

/// Whether a glob pattern compiles, and if not, the compiler's message.
pub uninterp spec fn glob_error(pattern: Seq<char>) -> Option<Seq<char>>;

/// Whether glob `pattern` matches `name`, with glob's default options.
pub uninterp spec fn glob_matches(pattern: Seq<char>, name: Seq<char>) -> bool;

/// How the tree's collation orders two names (root locale, quaternary
/// strength, punctuation and spaces shifted).
pub uninterp spec fn collation_order(a: Seq<char>, b: Seq<char>) -> Ordering;

/// Relies on `glob::Pattern::new`: it compiles `text` or reports why not.
#[verifier::external_body]
fn compile_glob(text: &str) -> (r: Result<glob::Pattern, String>)
    ensures
        r is Ok == (glob_error(text@) is None),
        r matches Err(m) ==> glob_error(text@) == Some(m@),
{
    match glob::Pattern::new(text) {
        Ok(p) => Ok(p),
        Err(e) => Err(e.to_string()),
    }
}

/// An ignore pattern of the tree view: its text and its compiled form.
pub struct IgnorePattern {
    text: String,
    compiled: glob::Pattern,
}

impl IgnorePattern {
    /// The pattern's text.
    pub closed spec fn text(&self) -> Seq<char> {
        self.text@
    }

    /// Compiles `text`; fails with glob's message when it is not a pattern.
    pub fn new(text: &str) -> (r: Result<IgnorePattern, String>)
        ensures
            r is Ok == (glob_error(text@) is None),
            r matches Ok(p) ==> p.text() == text@,
            r matches Err(m) ==> glob_error(text@) == Some(m@),
    {
        match compile_glob(text) {
            Ok(compiled) => Ok(IgnorePattern { text: text.to_owned(), compiled }),
            Err(m) => Err(m),
        }
    }
}

/// Relies on `glob::Pattern::matches`. The compiled pattern of an
/// `IgnorePattern` is only ever built from its text, by `IgnorePattern::new`.
#[verifier::external_body]
fn pattern_matches(p: &IgnorePattern, name: &str) -> (r: bool)
    ensures
        r == glob_matches(p.text(), name@),
{
    p.compiled.matches(name)
}

/// The compiling ignore patterns of `texts`, in order.
pub open spec fn accepted_patterns(texts: Seq<Seq<char>>) -> Seq<Seq<char>>
    decreases texts.len(),
{
    if texts.len() == 0 {
        texts
    } else if glob_error(texts.last()) is None {
        accepted_patterns(texts.drop_last()).push(texts.last())
    } else {
        accepted_patterns(texts.drop_last())
    }
}

/// A warning for each pattern of `texts` that does not compile, in order.
pub open spec fn pattern_warnings(texts: Seq<Seq<char>>) -> Seq<Seq<char>>
    decreases texts.len(),
{
    if texts.len() == 0 {
        Seq::empty()
    } else if glob_error(texts.last()) is Some {
        pattern_warnings(texts.drop_last()).push(
            "invalid glob pattern '"@ + texts.last() + "': "@ + glob_error(texts.last())->0
                + ", discarding"@,
        )
    } else {
        pattern_warnings(texts.drop_last())
    }
}

/// The texts of the patterns.
pub open spec fn pattern_texts(ps: Seq<IgnorePattern>) -> Seq<Seq<char>> {
    ps.map_values(|p: IgnorePattern| p.text())
}

/// The characters of each string.
pub open spec fn string_views(v: Seq<String>) -> Seq<Seq<char>> {
    v.map_values(|s: String| s@)
}

/// Compiles the ignore patterns; those that do not compile are left out,
/// each with a warning.
pub fn parse_ignore_patterns(patterns: &[String]) -> (r: (Vec<IgnorePattern>, Vec<String>))
    ensures
        pattern_texts(r.0@) == accepted_patterns(string_views(patterns@)),
        string_views(r.1@) == pattern_warnings(string_views(patterns@)),
{
    let ghost texts = string_views(patterns@);
    let mut kept: Vec<IgnorePattern> = Vec::new();
    let mut warnings: Vec<String> = Vec::new();
    let mut i: usize = 0;
    while i < patterns.len()
        invariant
            i <= patterns@.len(),
            texts == string_views(patterns@),
            pattern_texts(kept@) == accepted_patterns(texts.take(i as int)),
            string_views(warnings@) == pattern_warnings(texts.take(i as int)),
        decreases patterns@.len() - i,
    {
        assert(texts.take(i + 1).drop_last() =~= texts.take(i as int));
        assert(texts.take(i + 1).last() == patterns@[i as int]@);
        match IgnorePattern::new(patterns[i].as_str()) {
            Ok(p) => {
                let ghost before = kept@;
                kept.push(p);
                assert(pattern_texts(kept@) =~= pattern_texts(before).push(patterns@[i as int]@));
            },
            Err(m) => {
                let mut w = "invalid glob pattern '".to_owned();
                push_text(&mut w, patterns[i].as_str());
                push_text(&mut w, "': ");
                push_text(&mut w, m.as_str());
                push_text(&mut w, ", discarding");
                let ghost before = warnings@;
                warnings.push(w);
                assert(string_views(warnings@) =~= string_views(before).push(w@));
            },
        }
        i = i + 1;
    }
    assert(texts.take(patterns@.len() as int) =~= texts);
    (kept, warnings)
}

/// The collator of the tree view.
pub struct NameCollator {
    inner: icu_collator::CollatorBorrowed<'static>,
}

/// Relies on `icu_collator::CollatorBorrowed::try_new` for the root locale
/// with quaternary strength and shifted alternate handling, the collation
/// that `collation_order` names. With compiled data the root locale is
/// served from data built into the crate, so this always succeeds.
#[verifier::external_body]
fn new_collator() -> (r: Result<NameCollator, String>)
    ensures
        r is Ok,
{
    let mut options = icu_collator::options::CollatorOptions::default();
    options.strength = Some(icu_collator::options::Strength::Quaternary);
    options.alternate_handling = Some(icu_collator::options::AlternateHandling::Shifted);
    match icu_collator::CollatorBorrowed::try_new(Default::default(), options) {
        Ok(c) => Ok(NameCollator { inner: c }),
        Err(e) => Err(e.to_string()),
    }
}

/// Relies on `icu_collator::CollatorBorrowed::compare`; a `NameCollator` is
/// only built by `new_collator`.
#[verifier::external_body]
fn collate(c: &NameCollator, a: &str, b: &str) -> (r: Ordering)
    ensures
        r == collation_order(a@, b@),
{
    c.inner.compare(a, b)
}

/// An entry of a directory's listing: a file or a subdirectory, by name.
#[derive(Debug)]
pub enum Entry {
    File(String),
    Dir(String),
}

/// An `Entry` as plain values.
pub enum Listed {
    File(Seq<char>),
    Dir(Seq<char>),
}

impl View for Entry {
    type V = Listed;

    open spec fn view(&self) -> Listed {
        match self {
            Entry::File(n) => Listed::File(n@),
            Entry::Dir(n) => Listed::Dir(n@),
        }
    }
}

/// The name of an entry of either kind.
pub open spec fn listed_name(e: Listed) -> Seq<char> {
    match e {
        Listed::File(n) => n,
        Listed::Dir(n) => n,
    }
}

impl Entry {
    /// The entry's name.
    pub fn name(&self) -> (r: &str)
        ensures
            r@ == listed_name(self@),
    {
        match self {
            Entry::File(n) => n.as_str(),
            Entry::Dir(n) => n.as_str(),
        }
    }
}

/// A printable character: ASCII graphic or the space.
pub open spec fn printable(c: char) -> bool {
    0x20 <= (c as u32) <= 0x7e
}

/// `name` as printed: every character that is not printable ASCII becomes
/// `?`, unless escaping is off.
pub open spec fn escaped(name: Seq<char>, no_escape: bool) -> Seq<char> {
    if no_escape {
        name
    } else {
        name.map_values(|c: char| if printable(c) { c } else { '?' })
    }
}

/// `name` as the tree prints it.
pub fn maybe_escape(name: &str, no_escape: bool) -> (r: String)
    ensures
        r@ == escaped(name@, no_escape),
{
    if no_escape {
        return name.to_owned();
    }
    let cs = chars_of(name);
    let mut s = String::new();
    let mut i: usize = 0;
    while i < cs.len()
        invariant
            i <= cs@.len(),
            cs@ == name@,
            s@ == escaped(name@, false).take(i as int),
        decreases cs@.len() - i,
    {
        let c = cs[i];
        let code = c as u32;
        let shown = if 0x20 <= code && code <= 0x7e {
            c
        } else {
            '?'
        };
        push_char(&mut s, shown);
        assert(escaped(name@, false).take(i + 1) =~= escaped(name@, false).take(i as int).push(
            shown,
        ));
        i = i + 1;
    }
    assert(escaped(name@, false).take(i as int) =~= escaped(name@, false));
    s
}

/// What a directory path's children start with: the path itself when it is
/// empty or ends with `/`, else the path and a `/`.
pub open spec fn dir_prefix(dir: Seq<char>) -> Seq<char> {
    if dir.len() == 0 || dir.last() == '/' {
        dir
    } else {
        dir.push('/')
    }
}

/// Whether `s` holds `c`.
pub open spec fn holds(s: Seq<char>, c: char) -> bool {
    exists|i: int| 0 <= i < s.len() && s[i] == c
}

/// The name under which path `k` is a child of directory `dir`: what
/// follows `dir`'s prefix, when that is a nonempty name without `/`.
pub open spec fn child_name(dir: Seq<char>, k: Seq<char>) -> Option<Seq<char>> {
    let p = dir_prefix(dir);
    if k.len() > p.len() && k.take(p.len() as int) == p && !holds(k.skip(p.len() as int), '/') {
        Some(k.skip(p.len() as int))
    } else {
        None
    }
}

/// The names of the recorded directories that are children of `dir`, in
/// path order.
pub open spec fn child_names(records: Seq<Record>, dir: Seq<char>) -> Seq<Seq<char>>
    decreases records.len(),
{
    if records.len() == 0 {
        Seq::empty()
    } else {
        let rest = child_names(records.drop_last(), dir);
        match child_name(dir, records.last().0) {
            Some(n) => rest.push(n),
            None => rest,
        }
    }
}

proof fn lemma_child_names_step(records: Seq<Record>, dir: Seq<char>, j: int)
    requires
        0 <= j < records.len(),
    ensures
        child_names(records.take(j + 1), dir) == match child_name(dir, records[j].0) {
            Some(n) => child_names(records.take(j), dir).push(n),
            None => child_names(records.take(j), dir),
        },
{
    assert(records.take(j + 1).drop_last() =~= records.take(j));
    assert(records.take(j + 1).last() == records[j]);
}

proof fn lemma_child_names_none_before(records: Seq<Record>, dir: Seq<char>, m: int)
    requires
        0 <= m <= records.len(),
        forall|i: int| 0 <= i < m ==> child_name(dir, #[trigger] records[i].0) is None,
    ensures
        child_names(records.take(m), dir) == Seq::<Seq<char>>::empty(),
    decreases m,
{
    if m > 0 {
        lemma_child_names_none_before(records, dir, m - 1);
        lemma_child_names_step(records, dir, m - 1);
    } else {
        assert(records.take(0).len() == 0);
    }
}

proof fn lemma_child_names_none_after(records: Seq<Record>, dir: Seq<char>, m: int)
    requires
        0 <= m <= records.len(),
        forall|i: int| m <= i < records.len() ==> child_name(dir, #[trigger] records[i].0) is None,
    ensures
        child_names(records, dir) == child_names(records.take(m), dir),
    decreases records.len() - m,
{
    if m < records.len() {
        lemma_child_names_none_after(records, dir, m + 1);
        lemma_child_names_step(records, dir, m);
    } else {
        assert(records.take(m) =~= records);
    }
}

/// Whether `key` starts with `prefix`, and the child name it gives when
/// `prefix` is a directory's prefix.
fn child_of(prefix: &Vec<char>, key: &str) -> (r: (bool, Option<String>))
    ensures
        r.0 == (prefix@.len() <= key@.len() && key@.take(prefix@.len() as int) == prefix@),
        r.1 matches Some(n) ==> n@ == key@.skip(prefix@.len() as int),
        r.1 is Some == (r.0 && key@.len() > prefix@.len() && !holds(
            key@.skip(prefix@.len() as int),
            '/',
        )),
{
    let cs = chars_of(key);
    if prefix.len() > cs.len() {
        return (false, None);
    }
    let mut i: usize = 0;
    while i < prefix.len()
        invariant
            i <= prefix@.len() <= cs@.len(),
            cs@ == key@,
            cs@.take(i as int) == prefix@.take(i as int),
        decreases prefix@.len() - i,
    {
        if cs[i] != prefix[i] {
            assert(cs@.take(prefix@.len() as int)[i as int] == cs@[i as int]);
            return (false, None);
        }
        assert(cs@.take(i + 1) =~= cs@.take(i as int).push(cs@[i as int]));
        assert(prefix@.take(i + 1) =~= prefix@.take(i as int).push(prefix@[i as int]));
        i = i + 1;
    }
    assert(prefix@.take(i as int) =~= prefix@);
    assert(cs@.take(prefix@.len() as int) == prefix@);
    if cs.len() == prefix.len() {
        return (true, None);
    }
    let mut j: usize = prefix.len();
    while j < cs.len()
        invariant
            prefix@.len() <= j <= cs@.len(),
            cs@ == key@,
            cs@.take(prefix@.len() as int) == prefix@,
            forall|q: int| prefix@.len() <= q < j ==> cs@[q] != '/',
        decreases cs@.len() - j,
    {
        if cs[j] == '/' {
            assert(key@.skip(prefix@.len() as int)[j - prefix@.len()] == '/');
            return (true, None);
        }
        j = j + 1;
    }
    assert(!holds(key@.skip(prefix@.len() as int), '/')) by {
        if holds(key@.skip(prefix@.len() as int), '/') {
            let q = choose|q: int|
                0 <= q < key@.skip(prefix@.len() as int).len() && key@.skip(
                    prefix@.len() as int,
                )[q] == '/';
            assert(cs@[q + prefix@.len()] == '/');
        }
    }
    let name = string_from_chars(&cs, prefix.len(), cs.len());
    assert(name@ =~= key@.skip(prefix@.len() as int));
    (true, Some(name))
}

/// The names of the recorded subdirectories of `dir`, in path order. Only
/// the block of paths that start with `dir`'s prefix is read.
fn child_dirs(state: &ScanState, dir: &str) -> (r: Vec<String>)
    ensures
        string_views(r@) == child_names(state@, dir@),
{
    proof {
        use_type_invariant(state);
    }
    let records = Ghost(state@);
    let cs = chars_of(dir);
    let mut prefix = String::new();
    push_text(&mut prefix, dir);
    if cs.len() > 0 && cs[cs.len() - 1] != '/' {
        push_char(&mut prefix, '/');
    }
    assert(prefix@ =~= dir_prefix(dir@));
    let p = chars_of(prefix.as_str());
    let start = state.lower_bound(prefix.as_str());
    proof {
        crate::state::lemma_rank(records@, p@);
        assert forall|i: int| 0 <= i < start implies child_name(dir@, #[trigger] records@[i].0)
            is None by {
            if p@.len() <= records@[i].0.len() && records@[i].0.take(p@.len() as int) == p@ {
                crate::text::lemma_prefix_not_less(p@, records@[i].0);
            }
        }
        lemma_child_names_none_before(records@, dir@, start as int);
    }
    let mut out: Vec<String> = Vec::new();
    let mut j: usize = start;
    let n = state.len();
    while j < n
        invariant
            start <= j <= n,
            n == records@.len(),
            records@ == state@,
            p@ == dir_prefix(dir@),
            crate::state::well_sorted(records@),
            start == rank(records@, p@),
            forall|i: int| start <= i < j ==> (p@.len() <= (#[trigger] records@[i]).0.len()
                && records@[i].0.take(p@.len() as int) == p@),
            string_views(out@) == child_names(records@.take(j as int), dir@),
        decreases n - j,
    {
        let (key, _) = state.entry_at(j);
        let (inside, name) = child_of(&p, key.as_str());
        if !inside {
            proof {
                crate::state::lemma_rank(records@, p@);
                assert forall|i: int| j <= i < records@.len() implies child_name(
                    dir@,
                    #[trigger] records@[i].0,
                ) is None by {
                    if i > j && p@.len() <= records@[i].0.len() && records@[i].0.take(
                        p@.len() as int,
                    ) == p@ {
                        crate::text::lemma_prefix_block(p@, records@[j as int].0, records@[i].0);
                        assert(text_less(records@[j as int].0, records@[i].0));
                        crate::text::lemma_text_less_asymmetric(
                            records@[i].0,
                            records@[j as int].0,
                        );
                    }
                }
                lemma_child_names_none_after(records@, dir@, j as int);
            }
            return out;
        }
        proof {
            lemma_child_names_step(records@, dir@, j as int);
        }
        match name {
            Some(nm) => {
                let ghost before = out@;
                out.push(nm);
                assert(string_views(out@) =~= string_views(before).push(nm@));
            },
            None => {},
        }
        j = j + 1;
    }
    proof {
        lemma_child_names_none_after(records@, dir@, j as int);
    }
    out
}

/// The cached file names of `dir`, in their stored order.
pub open spec fn file_names(records: Seq<Record>, dir: Seq<char>) -> Seq<Seq<char>> {
    if has_key(records, dir) {
        info_of(records, dir).files.map_values(|f: FileInfo| f.filename)
    } else {
        Seq::empty()
    }
}

/// Files first, then subdirectories, each in the order given.
pub open spec fn listing(records: Seq<Record>, dir: Seq<char>) -> Seq<Listed> {
    file_names(records, dir).map_values(|n: Seq<char>| Listed::File(n)) + child_names(
        records,
        dir,
    ).map_values(|n: Seq<char>| Listed::Dir(n))
}

/// How the tree is shown.
pub struct TreeOptions {
    pub patterns: Seq<Seq<char>>,
    pub no_escape: bool,
    pub show_hidden: bool,
}

/// Whether an entry named `name` is shown: hidden names (starting with a
/// dot) only when asked for, and no name that an ignore pattern matches.
pub open spec fn is_shown(name: Seq<char>, patterns: Seq<Seq<char>>, show_hidden: bool) -> bool {
    &&& show_hidden || !(name.len() > 0 && name[0] == '.')
    &&& forall|i: int| 0 <= i < patterns.len() ==> !glob_matches(#[trigger] patterns[i], name)
}

/// The shown entries, in order.
pub open spec fn shown_entries(
    entries: Seq<Listed>,
    patterns: Seq<Seq<char>>,
    show_hidden: bool,
) -> Seq<Listed>
    decreases entries.len(),
{
    if entries.len() == 0 {
        entries
    } else if is_shown(listed_name(entries.last()), patterns, show_hidden) {
        shown_entries(entries.drop_last(), patterns, show_hidden).push(entries.last())
    } else {
        shown_entries(entries.drop_last(), patterns, show_hidden)
    }
}

/// `e` put into the collated `sorted`: after every entry that does not
/// collate after it.
pub open spec fn insert_collated(sorted: Seq<Listed>, e: Listed) -> Seq<Listed>
    decreases sorted.len(),
{
    if sorted.len() == 0 {
        seq![e]
    } else if collation_order(listed_name(sorted.last()), listed_name(e)) == Ordering::Greater {
        insert_collated(sorted.drop_last(), e).push(sorted.last())
    } else {
        sorted.push(e)
    }
}

/// The entries in collation order; entries that collate alike keep their
/// order.
pub open spec fn collated(entries: Seq<Listed>) -> Seq<Listed>
    decreases entries.len(),
{
    if entries.len() == 0 {
        entries
    } else {
        insert_collated(collated(entries.drop_last()), entries.last())
    }
}

/// Entry `i + 1` does not collate before entry `i`.
pub open spec fn in_order_at(entries: Seq<Listed>, i: int) -> bool {
    collation_order(listed_name(entries[i]), listed_name(entries[i + 1])) != Ordering::Greater
}

/// No entry collates before the one in front of it.
pub open spec fn collation_ordered(entries: Seq<Listed>) -> bool {
    forall|i: int| 0 <= i < entries.len() - 1 ==> #[trigger] in_order_at(entries, i)
}

/// Whenever a name collates after another, that one collates before it.
#[verifier::opaque]
pub open spec fn collation_antisymmetric() -> bool {
    forall|x: Seq<char>, y: Seq<char>|
        #[trigger] collation_order(x, y) == Ordering::Greater ==> collation_order(y, x)
            == Ordering::Less
}

proof fn lemma_insert_collated_shape(sorted: Seq<Listed>, e: Listed)
    ensures
        insert_collated(sorted, e).to_multiset() == sorted.to_multiset().insert(e),
        insert_collated(sorted, e).len() == sorted.len() + 1,
        insert_collated(sorted, e).last() == e || (sorted.len() > 0 && insert_collated(
            sorted,
            e,
        ).last() == sorted.last()),
    decreases sorted.len(),
{
    broadcast use vstd::seq_lib::group_to_multiset_ensures;

    if sorted.len() == 0 {
        assert(seq![e] =~= Seq::<Listed>::empty().push(e));
    } else {
        let init = sorted.drop_last();
        assert(sorted =~= init.push(sorted.last()));
        if collation_order(listed_name(sorted.last()), listed_name(e)) == Ordering::Greater {
            lemma_insert_collated_shape(init, e);
        }
    }
}

/// The one case of antisymmetry that inserting `e` after `x` relies on.
pub open spec fn flips(x: Listed, e: Listed) -> bool {
    collation_order(listed_name(x), listed_name(e)) == Ordering::Greater ==> collation_order(
        listed_name(e),
        listed_name(x),
    ) == Ordering::Less
}

proof fn lemma_insert_collated_ordered(sorted: Seq<Listed>, e: Listed)
    requires
        forall|i: int| 0 <= i < sorted.len() ==> flips(#[trigger] sorted[i], e),
        collation_ordered(sorted),
    ensures
        collation_ordered(insert_collated(sorted, e)),
    decreases sorted.len(),
{
    if sorted.len() > 0 {
        let init = sorted.drop_last();
        let last = sorted.last();
        if collation_order(listed_name(last), listed_name(e)) == Ordering::Greater {
            assert(collation_ordered(init)) by {
                assert forall|i: int| 0 <= i < init.len() - 1 implies #[trigger] in_order_at(
                    init,
                    i,
                ) by {
                    assert(in_order_at(sorted, i));
                    assert(init[i] == sorted[i] && init[i + 1] == sorted[i + 1]);
                }
            }
            assert forall|i: int| 0 <= i < init.len() implies flips(#[trigger] init[i], e) by {
                assert(init[i] == sorted[i]);
            }
            lemma_insert_collated_ordered(init, e);
            lemma_insert_collated_shape(init, e);
            assert(flips(sorted[sorted.len() - 1], e));
            let mid = insert_collated(init, e);
            let r = mid.push(last);
            assert forall|i: int| 0 <= i < r.len() - 1 implies #[trigger] in_order_at(r, i) by {
                if i == r.len() - 2 {
                    assert(r[i] == mid.last());
                    assert(r[i + 1] == last);
                    if mid.last() != e {
                        assert(sorted[sorted.len() - 2] == init.last());
                        assert(in_order_at(sorted, sorted.len() - 2));
                    }
                } else {
                    assert(in_order_at(mid, i));
                    assert(r[i] == mid[i] && r[i + 1] == mid[i + 1]);
                }
            }
        } else {
            let r = sorted.push(e);
            assert forall|i: int| 0 <= i < r.len() - 1 implies #[trigger] in_order_at(r, i) by {
                if i < sorted.len() - 1 {
                    assert(in_order_at(sorted, i));
                    assert(r[i] == sorted[i] && r[i + 1] == sorted[i + 1]);
                } else {
                    assert(r[i] == last && r[i + 1] == e);
                }
            }
        }
    }
}

/// A directory's listing holds exactly the shown entries, each once; and
/// when the collation is antisymmetric (as a comparison of sort keys is),
/// no entry of it collates before the one in front of it.
pub proof fn lemma_collated_listing(entries: Seq<Listed>)
    ensures
        collated(entries).to_multiset() == entries.to_multiset(),
        collation_antisymmetric() ==> collation_ordered(collated(entries)),
    decreases entries.len(),
{
    broadcast use vstd::seq_lib::group_to_multiset_ensures;

    if entries.len() > 0 {
        let init = entries.drop_last();
        lemma_collated_listing(init);
        lemma_insert_collated_shape(collated(init), entries.last());
        if collation_antisymmetric() {
            let c = collated(init);
            let e = entries.last();
            assert forall|i: int| 0 <= i < c.len() implies flips(#[trigger] c[i], e) by {
                reveal(collation_antisymmetric);
                if collation_order(listed_name(c[i]), listed_name(e)) == Ordering::Greater {
                    assert(collation_order(listed_name(e), listed_name(c[i])) == Ordering::Less);
                }
            }
            lemma_insert_collated_ordered(c, e);
        }
        assert(entries =~= init.push(entries.last()));
    }
}

/// What the tree lists under `dir`.
pub open spec fn dir_entries(
    records: Seq<Record>,
    dir: Seq<char>,
    patterns: Seq<Seq<char>>,
    show_hidden: bool,
) -> Seq<Listed> {
    collated(shown_entries(listing(records, dir), patterns, show_hidden))
}

/// The connector before an entry's name.
pub open spec fn connector(last: bool) -> Seq<char> {
    if last {
        "└── "@
    } else {
        "├── "@
    }
}

/// What the lines under an entry are indented with, after the entry's own
/// indentation.
pub open spec fn indent(last: bool) -> Seq<char> {
    if last {
        "    "@
    } else {
        "│\u{a0}\u{a0} "@
    }
}

/// Lines of a rendered part of the tree, and the directories and files it
/// shows.
pub struct Rendered {
    pub lines: Seq<Seq<char>>,
    pub dirs: nat,
    pub files: nat,
}

/// The rendering of `entries`, listed under `dir` with indentation
/// `prefix`, each subdirectory followed by its own rendering. `depth`
/// bounds how many levels of subdirectories are opened.
pub open spec fn render_entries(
    records: Seq<Record>,
    opts: TreeOptions,
    dir: Seq<char>,
    prefix: Seq<char>,
    entries: Seq<Listed>,
    depth: nat,
) -> Rendered
    decreases depth, entries.len(),
{
    if entries.len() == 0 {
        Rendered { lines: Seq::empty(), dirs: 0, files: 0 }
    } else {
        let last = entries.len() == 1;
        let line = prefix + connector(last) + escaped(listed_name(entries[0]), opts.no_escape);
        let rest = render_entries(records, opts, dir, prefix, entries.drop_first(), depth);
        match entries[0] {
            Listed::File(_) => Rendered {
                lines: seq![line] + rest.lines,
                dirs: rest.dirs,
                files: rest.files + 1,
            },
            Listed::Dir(n) => {
                if depth == 0 {
                    Rendered { lines: seq![line] + rest.lines, dirs: 1 + rest.dirs, files: rest.files }
                } else {
                    let child = crate::paths::join_path(dir, n);
                    let sub = render_entries(
                        records,
                        opts,
                        child,
                        prefix + indent(last),
                        dir_entries(records, child, opts.patterns, opts.show_hidden),
                        (depth - 1) as nat,
                    );
                    Rendered {
                        lines: seq![line] + sub.lines + rest.lines,
                        dirs: 1 + sub.dirs + rest.dirs,
                        files: sub.files + rest.files,
                    }
                }
            },
        }
    }
}

/// The whole tree under `root`: the root's own line, then its rendering.
/// Every directory opened is a recorded one, a level deeper than the one
/// before, so opening as many levels as there are records leaves none
/// unopened.
pub open spec fn tree_view(records: Seq<Record>, root: Seq<char>, opts: TreeOptions) -> Rendered {
    let body = render_entries(
        records,
        opts,
        root,
        Seq::empty(),
        dir_entries(records, root, opts.patterns, opts.show_hidden),
        records.len(),
    );
    Rendered { lines: seq![root] + body.lines, dirs: body.dirs + 1, files: body.files }
}

/// The cached file names of `dir`, in their stored order.
fn dir_files(state: &ScanState, dir: &str) -> (r: Vec<String>)
    ensures
        string_views(r@) == file_names(state@, dir@),
{
    let mut out: Vec<String> = Vec::new();
    match state.get(dir) {
        Some(entry) => {
            let ghost names = info_of(state@, dir@).files.map_values(|f: FileInfo| f.filename);
            let mut i: usize = 0;
            while i < entry.files.len()
                invariant
                    i <= entry.files@.len(),
                    names.len() == entry.files@.len(),
                    forall|q: int| 0 <= q < names.len() ==> #[trigger] names[q] == entry.files@[q].filename@,
                    string_views(out@) == names.take(i as int),
                decreases entry.files@.len() - i,
            {
                let ghost before = string_views(out@);
                let nm = entry.files[i].filename.clone();
                assert(nm@ == names[i as int]);
                out.push(nm);
                assert(names.take(i + 1) =~= names.take(i as int).push(names[i as int]));
                assert(string_views(out@) =~= before.push(nm@));
                i = i + 1;
            }
            assert(names.take(i as int) =~= names);
        },
        None => {
            assert(string_views(out@) =~= Seq::<Seq<char>>::empty());
        },
    }
    out
}

/// Whether an entry named `name` is shown.
fn shown(name: &str, patterns: &[IgnorePattern], show_hidden: bool) -> (r: bool)
    ensures
        r == is_shown(name@, pattern_texts(patterns@), show_hidden),
{
    let cs = chars_of(name);
    if !show_hidden && cs.len() > 0 && cs[0] == '.' {
        return false;
    }
    let mut i: usize = 0;
    while i < patterns.len()
        invariant
            i <= patterns@.len(),
            forall|q: int| 0 <= q < i ==> !glob_matches(#[trigger] pattern_texts(patterns@)[q], name@),
        decreases patterns@.len() - i,
    {
        assert(pattern_texts(patterns@)[i as int] == patterns@[i as int].text());
        if pattern_matches(&patterns[i], name) {
            assert(glob_matches(pattern_texts(patterns@)[i as int], name@));
            return false;
        }
        i = i + 1;
    }
    true
}

/// Whether `a` collates after `b`.
fn collates_after(c: &NameCollator, a: &str, b: &str) -> (r: bool)
    ensures
        r == (collation_order(a@, b@) == Ordering::Greater),
{
    match collate(c, a, b) {
        Ordering::Greater => true,
        _ => false,
    }
}

/// `e` put into the collated `sorted`, as `insert_collated` says.
fn insert_by_collation(sorted: &mut Vec<Entry>, e: Entry, collator: &NameCollator)
    ensures
        final(sorted)@.map_values(|x: Entry| x@) == insert_collated(
            old(sorted)@.map_values(|x: Entry| x@),
            e@,
        ),
{
    let ghost orig = sorted@.map_values(|x: Entry| x@);
    let mut j: usize = sorted.len();
    assert(orig.take(j as int) =~= orig);
    assert(orig.skip(j as int) =~= Seq::<Listed>::empty());
    assert(insert_collated(orig, e@) =~= insert_collated(orig.take(j as int), e@) + orig.skip(
        j as int,
    ));
    while j > 0 && collates_after(collator, sorted[j - 1].name(), e.name())
        invariant
            j <= sorted@.len(),
            orig == sorted@.map_values(|x: Entry| x@),
            insert_collated(orig, e@) == insert_collated(orig.take(j as int), e@) + orig.skip(
                j as int,
            ),
        decreases j,
    {
        proof {
            let a = orig.take(j as int);
            assert(a.last() == orig[j - 1]);
            assert(a.drop_last() =~= orig.take(j - 1));
            assert(orig.skip(j - 1) =~= seq![orig[j - 1]] + orig.skip(j as int));
            assert(insert_collated(a, e@) == insert_collated(orig.take(j - 1), e@).push(
                orig[j - 1],
            ));
            assert(insert_collated(orig.take(j - 1), e@).push(orig[j - 1]) + orig.skip(j as int)
                =~= insert_collated(orig.take(j - 1), e@) + orig.skip(j - 1));
        }
        j = j - 1;
    }
    proof {
        let a = orig.take(j as int);
        if j > 0 {
            assert(a.last() == orig[j - 1]);
        } else {
            assert(a.len() == 0);
        }
        assert(insert_collated(a, e@) =~= a.push(e@));
    }
    let ghost ev = e@;
    sorted.insert(j, e);
    assert(sorted@.map_values(|x: Entry| x@) =~= orig.take(j as int).push(ev) + orig.skip(
        j as int,
    ));
}

/// Files first, then subdirectories; the shown ones, in collation order.
pub fn merge_entries(
    files: Vec<String>,
    child_dirs: Vec<String>,
    patterns: &[IgnorePattern],
    show_hidden: bool,
    collator: &NameCollator,
) -> (r: Vec<Entry>)
    ensures
        r@.map_values(|x: Entry| x@) == collated(
            shown_entries(
                string_views(files@).map_values(|n: Seq<char>| Listed::File(n)) + string_views(
                    child_dirs@,
                ).map_values(|n: Seq<char>| Listed::Dir(n)),
                pattern_texts(patterns@),
                show_hidden,
            ),
        ),
{
    let ghost pats = pattern_texts(patterns@);
    let ghost all = string_views(files@).map_values(|n: Seq<char>| Listed::File(n)) + string_views(
        child_dirs@,
    ).map_values(|n: Seq<char>| Listed::Dir(n));
    let mut merged: Vec<Entry> = Vec::new();
    for f in it: files.into_iter()
        invariant
            string_views(it.seq()) == string_views(files@),
            merged@.map_values(|x: Entry| x@) == string_views(files@).take(it.index()).map_values(
                |n: Seq<char>| Listed::File(n),
            ),
    {
        let ghost before = merged@.map_values(|x: Entry| x@);
        let ghost i = it.index();
        let ghost names = string_views(files@);
        assert(f@ == names[i]);
        assert(names.take(i + 1) =~= names.take(i).push(f@));
        assert(names.take(i + 1).map_values(|n: Seq<char>| Listed::File(n)) =~= names.take(
            i,
        ).map_values(|n: Seq<char>| Listed::File(n)).push(Listed::File(f@)));
        merged.push(Entry::File(f));
        assert(merged@.map_values(|x: Entry| x@) =~= before.push(Listed::File(names[i])));
    }
    let ghost nf = merged@.len();
    assert(string_views(files@).take(string_views(files@).len() as int) =~= string_views(files@));
    for d in it: child_dirs.into_iter()
        invariant
            string_views(it.seq()) == string_views(child_dirs@),
            merged@.map_values(|x: Entry| x@) == string_views(files@).map_values(
                |n: Seq<char>| Listed::File(n),
            ) + string_views(child_dirs@).take(it.index()).map_values(|n: Seq<char>| Listed::Dir(n)),
    {
        let ghost before = merged@.map_values(|x: Entry| x@);
        let ghost i = it.index();
        let ghost names = string_views(child_dirs@);
        let ghost head = string_views(files@).map_values(|n: Seq<char>| Listed::File(n));
        assert(d@ == names[i]);
        assert(names.take(i + 1) =~= names.take(i).push(d@));
        assert(names.take(i + 1).map_values(|n: Seq<char>| Listed::Dir(n)) =~= names.take(
            i,
        ).map_values(|n: Seq<char>| Listed::Dir(n)).push(Listed::Dir(d@)));
        merged.push(Entry::Dir(d));
        assert(merged@.map_values(|x: Entry| x@) =~= before.push(Listed::Dir(names[i])));
        assert(head + names.take(i + 1).map_values(|n: Seq<char>| Listed::Dir(n)) =~= (head
            + names.take(i).map_values(|n: Seq<char>| Listed::Dir(n))).push(Listed::Dir(d@)));
    }
    assert(string_views(child_dirs@).take(string_views(child_dirs@).len() as int) =~= string_views(
        child_dirs@,
    ));
    assert(merged@.map_values(|x: Entry| x@) =~= all);
    let mut kept: Vec<Entry> = Vec::new();
    for e in it: merged.into_iter()
        invariant
            it.seq().map_values(|x: Entry| x@) == all,
            pats == pattern_texts(patterns@),
            kept@.map_values(|x: Entry| x@) == shown_entries(all.take(it.index()), pats, show_hidden),
    {
        let ghost i = it.index();
        assert(all.take(i + 1).drop_last() =~= all.take(i));
        assert(all.take(i + 1).last() == e@);
        if shown(e.name(), patterns, show_hidden) {
            let ghost before = kept@.map_values(|x: Entry| x@);
            kept.push(e);
            assert(kept@.map_values(|x: Entry| x@) =~= before.push(all[i]));
        }
    }
    assert(all.take(all.len() as int) =~= all);
    let ghost visible = shown_entries(all, pats, show_hidden);
    let mut sorted: Vec<Entry> = Vec::new();
    for e in it: kept.into_iter()
        invariant
            it.seq().map_values(|x: Entry| x@) == visible,
            sorted@.map_values(|x: Entry| x@) == collated(visible.take(it.index())),
    {
        let ghost i = it.index();
        assert(visible.take(i + 1).drop_last() =~= visible.take(i));
        assert(visible.take(i + 1).last() == e@);
        insert_by_collation(&mut sorted, e, collator);
    }
    assert(visible.take(visible.len() as int) =~= visible);
    sorted
}

/// The presentation options, as plain values.
pub open spec fn options(patterns: Seq<IgnorePattern>, no_escape: bool, show_hidden: bool) -> TreeOptions {
    TreeOptions { patterns: pattern_texts(patterns), no_escape, show_hidden }
}

/// Appends the rendering of directory `dir` to `lines`, counting the
/// directories and files it lists.
fn render_dir(
    state: &ScanState,
    patterns: &[IgnorePattern],
    collator: &NameCollator,
    no_escape: bool,
    show_hidden: bool,
    dir: &str,
    prefix: &str,
    depth: usize,
    lines: &mut Vec<String>,
    dirs: &mut usize,
    files: &mut usize,
)
    requires
        *old(dirs) + *old(files) < old(lines)@.len(),
    ensures
        string_views(final(lines)@) == string_views(old(lines)@) + render_entries(
            state@,
            options(patterns@, no_escape, show_hidden),
            dir@,
            prefix@,
            dir_entries(state@, dir@, pattern_texts(patterns@), show_hidden),
            depth as nat,
        ).lines,
        *final(dirs) == *old(dirs) + render_entries(
            state@,
            options(patterns@, no_escape, show_hidden),
            dir@,
            prefix@,
            dir_entries(state@, dir@, pattern_texts(patterns@), show_hidden),
            depth as nat,
        ).dirs,
        *final(files) == *old(files) + render_entries(
            state@,
            options(patterns@, no_escape, show_hidden),
            dir@,
            prefix@,
            dir_entries(state@, dir@, pattern_texts(patterns@), show_hidden),
            depth as nat,
        ).files,
        *final(dirs) + *final(files) < final(lines)@.len(),
    decreases depth,
{
    let ghost opts = options(patterns@, no_escape, show_hidden);
    let file_list = dir_files(state, dir);
    let sub_dirs = child_dirs(state, dir);
    let entries = merge_entries(file_list, sub_dirs, patterns, show_hidden, collator);
    let ghost all = entries@.map_values(|x: Entry| x@);
    assert(all == dir_entries(state@, dir@, pattern_texts(patterns@), show_hidden));
    let ghost whole = render_entries(state@, opts, dir@, prefix@, all, depth as nat);
    let ghost start_lines = string_views(lines@);
    let ghost start_dirs = *dirs;
    let ghost start_files = *files;
    let total = entries.len();
    let mut i: usize = 0;
    assert(all.skip(0) =~= all);
    while i < total
        invariant
            i <= total == entries@.len(),
            all == entries@.map_values(|x: Entry| x@),
            opts == options(patterns@, no_escape, show_hidden),
            whole == render_entries(state@, opts, dir@, prefix@, all, depth as nat),
            string_views(lines@) + render_entries(
                state@,
                opts,
                dir@,
                prefix@,
                all.skip(i as int),
                depth as nat,
            ).lines == start_lines + whole.lines,
            *dirs + render_entries(state@, opts, dir@, prefix@, all.skip(i as int), depth as nat).dirs
                == start_dirs + whole.dirs,
            *files + render_entries(state@, opts, dir@, prefix@, all.skip(i as int), depth as nat).files
                == start_files + whole.files,
            *dirs + *files < lines@.len(),
        decreases total - i,
    {
        let ghost here = all.skip(i as int);
        let ghost after = all.skip(i + 1);
        assert(here.drop_first() =~= after);
        assert(here[0] == all[i as int]);
        let last = i + 1 == total;
        let e = &entries[i];
        let mut line = String::new();
        push_text(&mut line, prefix);
        if last {
            push_text(&mut line, "└── ");
        } else {
            push_text(&mut line, "├── ");
        }
        let shown_name = maybe_escape(e.name(), no_escape);
        push_text(&mut line, shown_name.as_str());
        assert(line@ == prefix@ + connector(last) + escaped(listed_name(here[0]), no_escape));
        let ghost before_lines = string_views(lines@);
        lines.push(line);
        let count = lines.len();
        assert(string_views(lines@) =~= before_lines.push(line@));
        match e {
            Entry::File(_) => {
                *files = *files + 1;
                assert(before_lines.push(line@) + render_entries(state@, opts, dir@, prefix@, after, depth as nat).lines
                    =~= before_lines + render_entries(state@, opts, dir@, prefix@, here, depth as nat).lines);
            },
            Entry::Dir(name) => {
                *dirs = *dirs + 1;
                if depth > 0 {
                    let child = crate::paths::join(dir, name.as_str());
                    let mut child_prefix = String::new();
                    push_text(&mut child_prefix, prefix);
                    if last {
                        push_text(&mut child_prefix, "    ");
                    } else {
                        push_text(&mut child_prefix, "│\u{a0}\u{a0} ");
                    }
                    assert(child_prefix@ == prefix@ + indent(last));
                    let ghost mid_lines = string_views(lines@);
                    render_dir(
                        state,
                        patterns,
                        collator,
                        no_escape,
                        show_hidden,
                        child.as_str(),
                        child_prefix.as_str(),
                        depth - 1,
                        lines,
                        dirs,
                        files,
                    );
                    let ghost sub = render_entries(
                        state@,
                        opts,
                        child@,
                        child_prefix@,
                        dir_entries(state@, child@, pattern_texts(patterns@), show_hidden),
                        (depth - 1) as nat,
                    );
                    assert(string_views(lines@) == mid_lines + sub.lines);
                    assert(mid_lines + sub.lines + render_entries(state@, opts, dir@, prefix@, after, depth as nat).lines
                        =~= before_lines + render_entries(state@, opts, dir@, prefix@, here, depth as nat).lines);
                } else {
                    assert(before_lines.push(line@) + render_entries(state@, opts, dir@, prefix@, after, depth as nat).lines
                        =~= before_lines + render_entries(state@, opts, dir@, prefix@, here, depth as nat).lines);
                }
            },
        }
        i = i + 1;
    }
    assert(all.skip(total as int) =~= Seq::<Listed>::empty());
}

/// The lines of a rendered tree and the directories (the root included)
/// and files it shows.
#[derive(Debug)]
pub struct TreeListing {
    pub lines: Vec<String>,
    pub dir_count: usize,
    pub file_count: usize,
}

/// The closing summary of a tree: `N directories, M files`.
pub open spec fn summary_text(dirs: nat, files: nat) -> Seq<char> {
    crate::text::decimal(dirs) + " directories, "@ + crate::text::decimal(files) + " files"@
}

impl TreeListing {
    /// The closing summary line.
    pub fn summary(&self) -> (r: String)
        ensures
            r@ == summary_text(self.dir_count as nat, self.file_count as nat),
    {
        let mut s = crate::text::format_u64(self.dir_count as u64);
        push_text(&mut s, " directories, ");
        let f = crate::text::format_u64(self.file_count as u64);
        push_text(&mut s, f.as_str());
        push_text(&mut s, " files");
        s
    }
}

/// Renders the tree of `state` under `root`, as `tree_view` says.
pub fn render_tree(
    state: &ScanState,
    root: &str,
    patterns: &[IgnorePattern],
    no_escape: bool,
    show_hidden: bool,
) -> (t: TreeListing)
    ensures
        string_views(t.lines@) == tree_view(
            state@,
            root@,
            options(patterns@, no_escape, show_hidden),
        ).lines,
        t.dir_count == tree_view(state@, root@, options(patterns@, no_escape, show_hidden)).dirs,
        t.file_count == tree_view(state@, root@, options(patterns@, no_escape, show_hidden)).files,
{
    let collator = new_collator().unwrap();
    let mut lines: Vec<String> = Vec::new();
    lines.push(root.to_owned());
    let ghost first = string_views(lines@);
    assert(first =~= seq![root@]);
    let mut dirs: usize = 0;
    let mut files: usize = 0;
    render_dir(
        state,
        patterns,
        &collator,
        no_escape,
        show_hidden,
        root,
        "",
        state.len(),
        &mut lines,
        &mut dirs,
        &mut files,
    );
    proof {
        reveal_strlit("");
    }
    assert(""@ =~= Seq::<char>::empty());
    let n = lines.len();
    assert(dirs < n);
    TreeListing { lines, dir_count: dirs + 1, file_count: files }
}

} // verus!
