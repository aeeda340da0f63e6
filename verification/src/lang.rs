//! Sets of file extensions, and the languages that name them.

use crate::cli::HeaderMode;
use crate::text::{
    chars_of, join_with, lemma_lex_irreflexive, lemma_lex_total, lemma_lex_transitive, lex_lt,
    lines, lines_exec, lower, lower_exec, precedence_exec, push_text, same_text,
    slice_of, starts_with, starts_with_exec, str_eq, string_of, strings, strip_prefixes,
    strip_prefixes_exec, texts, trim, trim_end, trim_end_char, trim_start, trim_whitespace,
    whitespace, Precedence,
};
use vstd::prelude::*;

verus! {

/// Each text of `s` comes before all that follow it.
pub open spec fn ascending(s: Seq<Seq<char>>) -> bool {
    forall|i: int, j: int| 0 <= i < j < s.len() ==> lex_lt(#[trigger] s[i], #[trigger] s[j])
}

/// The first position of `s`, at `k` or later, whose text does not come
/// before `x`.
pub open spec fn place_from(s: Seq<Seq<char>>, x: Seq<char>, k: int) -> int
    decreases s.len() - k,
{
    if 0 <= k < s.len() && lex_lt(s[k], x) {
        place_from(s, x, k + 1)
    } else {
        k
    }
}

/// The position of `s` at which `x` stands or would be put.
pub open spec fn place(s: Seq<Seq<char>>, x: Seq<char>) -> int {
    place_from(s, x, 0)
}

/// `s` with `x` put in its place, unless it is there already.
pub open spec fn with_text(s: Seq<Seq<char>>, x: Seq<char>) -> Seq<Seq<char>> {
    let k = place(s, x);
    if 0 <= k < s.len() && s[k] == x {
        s
    } else {
        s.insert(k, x)
    }
}

/// What `place_from` gives.
pub proof fn lemma_place_from(s: Seq<Seq<char>>, x: Seq<char>, k: int)
    requires
        0 <= k <= s.len(),
    ensures
        k <= place_from(s, x, k) <= s.len(),
        forall|l: int| k <= l < place_from(s, x, k) ==> lex_lt(#[trigger] s[l], x),
        place_from(s, x, k) < s.len() ==> !lex_lt(s[place_from(s, x, k)], x),
    decreases s.len() - k,
{
    if k < s.len() && lex_lt(s[k], x) {
        lemma_place_from(s, x, k + 1);
    }
}

/// Putting a text in its place keeps an ascending sequence ascending,
/// and adds that text to what the sequence holds and nothing else.
pub proof fn lemma_with_text(s: Seq<Seq<char>>, x: Seq<char>)
    requires
        ascending(s),
    ensures
        ascending(with_text(s, x)),
        forall|y: Seq<char>| #[trigger]
            with_text(s, x).contains(y) <==> (s.contains(y) || y == x),
{
    lemma_place_from(s, x, 0);
    let k = place(s, x);
    let t = with_text(s, x);
    if 0 <= k < s.len() && s[k] == x {
        assert forall|y: Seq<char>| t.contains(y) <==> (s.contains(y) || y == x) by {
        }
    } else {
        assert forall|i: int, j: int| 0 <= i < j < t.len() implies lex_lt(
            #[trigger] t[i],
            #[trigger] t[j],
        ) by {
            let b = if j < k {
                j
            } else {
                j - 1
            };
            if i == k {
                lemma_lex_total(s[k], x);
                if b > k {
                    lemma_lex_transitive(x, s[k], s[b]);
                }
            }
        }
        assert forall|y: Seq<char>| t.contains(y) <==> (s.contains(y) || y == x) by {
            if s.contains(y) {
                let i = choose|i: int| 0 <= i < s.len() && s[i] == y;
                if i < k {
                    assert(t[i] == y);
                } else {
                    assert(t[i + 1] == y);
                }
            }
            if y == x {
                assert(t[k] == y);
            }
        }
    }
}

/// In an ascending sequence, a text is held exactly if it stands at its
/// place.
pub proof fn lemma_place_finds(s: Seq<Seq<char>>, x: Seq<char>)
    requires
        ascending(s),
    ensures
        s.contains(x) <==> (0 <= place(s, x) < s.len() && s[place(s, x)] == x),
{
    lemma_place_from(s, x, 0);
    if s.contains(x) {
        lemma_lex_irreflexive(x);
    }
}

/// A set of names, such as file extensions, kept in ascending order.
#[derive(Debug)]
pub struct NameSet {
    items: Vec<String>,
}

impl View for NameSet {
    type V = Seq<Seq<char>>;

    closed spec fn view(&self) -> Seq<Seq<char>> {
        strings(self.items@)
    }
}

impl NameSet {
    /// The names stand in ascending order, each once.
    pub open spec fn wf(&self) -> bool {
        ascending(self@)
    }

    /// The set holds the name `x`.
    pub open spec fn has(&self, x: Seq<char>) -> bool {
        self@.contains(x)
    }

    /// The empty set.
    pub fn new() -> (s: NameSet)
        ensures
            s.wf(),
            s@ == Seq::<Seq<char>>::empty(),
    {
        let s = NameSet { items: Vec::new() };
        s
    }

    /// The number of names.
    pub fn len(&self) -> (n: usize)
        ensures
            n == self@.len(),
    {
        self.items.len()
    }

    /// Whether the set is empty.
    pub fn is_empty(&self) -> (b: bool)
        ensures
            b == (self@.len() == 0),
    {
        self.items.len() == 0
    }

    /// The name at position `i` of the ascending order.
    pub fn get(&self, i: usize) -> (x: &String)
        requires
            i < self@.len(),
        ensures
            x@ == self@[i as int],
    {
        &self.items[i]
    }

    /// A copy of the set.
    pub fn duplicate(&self) -> (s: NameSet)
        ensures
            s@ == self@,
    {
        let mut items: Vec<String> = Vec::new();
        let mut i: usize = 0;
        while i < self.items.len()
            invariant
                i <= self.items.len(),
                strings(items@) == strings(self.items@.take(i as int)),
            decreases self.items.len() - i,
        {
            let ghost before = strings(items@);
            items.push(self.items[i].clone());
            assert(strings(items@) =~= before.push(self.items@[i as int]@));
            i += 1;
        }
        NameSet { items }
    }

    /// Where `x` stands or would be put.
    fn locate(&self, x: &Vec<char>) -> (r: (usize, bool))
        ensures
            r.0 == place(self@, x@),
            r.0 <= self@.len(),
            r.1 == (r.0 < self@.len() && self@[r.0 as int] == x@),
    {
        let mut k: usize = 0;
        while k < self.items.len()
            invariant
                k <= self.items.len(),
                place(self@, x@) == place_from(self@, x@, k as int),
            decreases self.items.len() - k,
        {
            let have = chars_of(self.items[k].as_str());
            match precedence_exec(&have, x) {
                Precedence::Before => {
                    k += 1;
                },
                Precedence::Same => {
                    return (k, true);
                },
                Precedence::After => {
                    return (k, false);
                },
            }
        }
        (k, false)
    }

    /// Whether the set holds the name `x`.
    pub fn contains(&self, x: &str) -> (b: bool)
        requires
            self.wf(),
        ensures
            b == self.has(x@),
    {
        let wanted = chars_of(x);
        let r = self.locate(&wanted);
        proof {
            lemma_place_finds(self@, x@);
        }
        r.1
    }

    /// Adds the name `x` to the set.
    pub fn insert(&mut self, x: String)
        requires
            old(self).wf(),
        ensures
            final(self).wf(),
            final(self)@ == with_text(old(self)@, x@),
            forall|y: Seq<char>| final(self).has(y) <==> (old(self).has(y) || y == x@),
    {
        let wanted = chars_of(x.as_str());
        let r = self.locate(&wanted);
        let ghost before = self@;
        let ghost text = x@;
        if !r.1 {
            self.items.insert(r.0, x);
            assert(self@ =~= before.insert(r.0 as int, text));
        }
        proof {
            lemma_with_text(before, text);
            assert forall|y: Seq<char>| self.has(y) <==> (before.contains(y) || y == text) by {
            }
        }
    }
}

/// The extension that `raw` names: without white space around it, without
/// leading dots, in lower case; none if nothing but white space is given.
pub open spec fn normalized_ext(raw: Seq<char>) -> Option<Seq<char>> {
    let trimmed = trim(raw, whitespace());
    if trimmed.len() == 0 {
        None
    } else {
        Some(lower(trim_start(trimmed, set!['.'])))
    }
}

/// Brings an extension into the form in which the sets hold it.
pub fn normalize_ext(raw: &str) -> (r: Option<String>)
    ensures
        match r {
            Some(x) => normalized_ext(raw@) == Some(x@),
            None => normalized_ext(raw@) is None,
        },
{
    let all = chars_of(raw);
    let trimmed = trim_whitespace(&all);
    if trimmed.len() == 0 {
        return None;
    }
    let ghost strip = set!['.'];
    let mut i: usize = 0;
    assert(trimmed@.subrange(0, trimmed.len() as int) =~= trimmed@);
    while i < trimmed.len() && trimmed[i] == '.'
        invariant
            i <= trimmed.len(),
            strip == set!['.'],
            trim_start(trimmed@, strip) == trim_start(
                trimmed@.subrange(i as int, trimmed.len() as int),
                strip,
            ),
        decreases trimmed.len() - i,
    {
        assert(trimmed@.subrange(i as int, trimmed.len() as int).drop_first()
            =~= trimmed@.subrange(i + 1, trimmed.len() as int));
        i += 1;
    }
    let rest = slice_of(&trimmed, i, trimmed.len());
    let low = lower_exec(&rest);
    Some(string_of(&low))
}

/// The extensions of C and C++ header files.
pub open spec fn is_header_ext(x: Seq<char>) -> bool {
    x == "h"@ || x == "hh"@ || x == "hpp"@ || x == "hxx"@ || x == "h++"@
}

/// Whether `x` is the extension of a header file.
pub fn is_header_ext_exec(x: &str) -> (b: bool)
    ensures
        b == is_header_ext(x@),
{
    str_eq(x, "h") || str_eq(x, "hh") || str_eq(x, "hpp") || str_eq(x, "hxx") || str_eq(x, "h++")
}

/// Whether a set holds an extension after the header mode is applied to
/// it, given whether it held the extension before and whether the
/// extension is that of a header file.
pub open spec fn header_rule(mode: HeaderMode, had: bool, header: bool) -> bool {
    match mode {
        HeaderMode::Include => had || header,
        HeaderMode::Exclude => had && !header,
        HeaderMode::Only => had && header,
    }
}

impl NameSet {
    /// Keeps the header extensions alone if `headers` is set, and all
    /// others if it is not.
    pub fn keep_headers(&mut self, headers: bool)
        requires
            old(self).wf(),
        ensures
            final(self).wf(),
            forall|y: Seq<char>|
                final(self).has(y) <==> (old(self).has(y) && is_header_ext(y) == headers),
    {
        let mut kept: Vec<String> = Vec::new();
        let mut i: usize = 0;
        let ghost all = self@;
        let ghost mut origin: Seq<int> = Seq::empty();
        let ghost mut target: Seq<int> = Seq::empty();
        while i < self.items.len()
            invariant
                i <= self.items.len(),
                all == self@,
                ascending(all),
                origin.len() == kept@.len(),
                target.len() == i,
                forall|a: int|
                    0 <= a < origin.len() ==> 0 <= #[trigger] origin[a] < i && all[origin[a]]
                        == kept@[a]@ && is_header_ext(all[origin[a]]) == headers,
                forall|a: int, b: int|
                    0 <= a < b < origin.len() ==> #[trigger] origin[a] < #[trigger] origin[b],
                forall|j: int|
                    0 <= j < i && is_header_ext(all[j]) == headers ==> 0 <= #[trigger] target[j]
                        < kept@.len() && kept@[target[j]]@ == all[j],
            decreases self.items.len() - i,
        {
            let keep = is_header_ext_exec(self.items[i].as_str()) == headers;
            if keep {
                kept.push(self.items[i].clone());
                proof {
                    origin = origin.push(i as int);
                    target = target.push(kept@.len() - 1);
                }
            } else {
                proof {
                    target = target.push(-1);
                }
            }
            i += 1;
        }
        self.items = kept;
        proof {
            let now = self@;
            assert forall|a: int, b: int| 0 <= a < b < now.len() implies lex_lt(
                #[trigger] now[a],
                #[trigger] now[b],
            ) by {
                assert(origin[a] < origin[b]);
            }
            assert forall|y: Seq<char>| #[trigger]
                self@.contains(y) <==> (old(self)@.contains(y) && is_header_ext(y) == headers) by {
                if now.contains(y) {
                    let a = choose|a: int| 0 <= a < now.len() && now[a] == y;
                    assert(all[origin[a]] == y);
                }
                if all.contains(y) && is_header_ext(y) == headers {
                    let j = choose|j: int| 0 <= j < all.len() && all[j] == y;
                    assert(now[target[j]] == y);
                }
            }
        }
    }
}

/// Adds the header extensions to the set, removes them from it, or
/// keeps them alone.
pub fn apply_header_mode(exts: &mut NameSet, headers: HeaderMode)
    requires
        old(exts).wf(),
    ensures
        final(exts).wf(),
        forall|y: Seq<char>|
            final(exts).has(y) <==> header_rule(headers, old(exts).has(y), is_header_ext(y)),
{
    match headers {
        HeaderMode::Include => {
            exts.insert("h".to_owned());
            exts.insert("hh".to_owned());
            exts.insert("hpp".to_owned());
            exts.insert("hxx".to_owned());
            exts.insert("h++".to_owned());
        },
        HeaderMode::Exclude => {
            exts.keep_headers(false);
        },
        HeaderMode::Only => {
            exts.keep_headers(true);
        },
    }
}

/// The ascending sequence that holds the texts of `a` and of `b`.
pub open spec fn union(a: Seq<Seq<char>>, b: Seq<Seq<char>>) -> Seq<Seq<char>>
    decreases b.len(),
{
    if b.len() == 0 {
        a
    } else {
        with_text(union(a, b.drop_last()), b.last())
    }
}

/// A union holds what either side holds, in ascending order.
pub proof fn lemma_union(a: Seq<Seq<char>>, b: Seq<Seq<char>>)
    requires
        ascending(a),
    ensures
        ascending(union(a, b)),
        forall|y: Seq<char>| #[trigger]
            union(a, b).contains(y) <==> (a.contains(y) || b.contains(y)),
    decreases b.len(),
{
    if b.len() > 0 {
        let front = b.drop_last();
        lemma_union(a, front);
        lemma_with_text(union(a, front), b.last());
        assert forall|y: Seq<char>| #[trigger]
            union(a, b).contains(y) <==> (a.contains(y) || b.contains(y)) by {
            if b.contains(y) {
                let j = choose|j: int| 0 <= j < b.len() && b[j] == y;
                if j < front.len() {
                    assert(front[j] == y);
                }
            }
        }
    }
}

/// The set of the extensions that the texts of `raw` name.
pub open spec fn normalized_set(raw: Seq<Seq<char>>) -> Seq<Seq<char>>
    decreases raw.len(),
{
    if raw.len() == 0 {
        Seq::empty()
    } else {
        let before = normalized_set(raw.drop_last());
        match normalized_ext(raw.last()) {
            Some(x) => with_text(before, x),
            None => before,
        }
    }
}

/// The set of the extensions that the texts of `raw` name holds each of
/// them, in ascending order, and nothing else.
pub proof fn lemma_normalized_set(raw: Seq<Seq<char>>)
    ensures
        ascending(normalized_set(raw)),
        forall|y: Seq<char>| #[trigger]
            normalized_set(raw).contains(y) <==> exists|k: int|
                0 <= k < raw.len() && normalized_ext(#[trigger] raw[k]) == Some(y),
    decreases raw.len(),
{
    if raw.len() > 0 {
        let front = raw.drop_last();
        lemma_normalized_set(front);
        let before = normalized_set(front);
        if normalized_ext(raw.last()) is Some {
            lemma_with_text(before, normalized_ext(raw.last()).unwrap());
        }
        assert forall|y: Seq<char>| #[trigger]
            normalized_set(raw).contains(y) <==> exists|k: int|
                0 <= k < raw.len() && normalized_ext(#[trigger] raw[k]) == Some(y) by {
            if exists|k: int| 0 <= k < raw.len() && normalized_ext(#[trigger] raw[k]) == Some(y) {
                let k = choose|k: int|
                    0 <= k < raw.len() && normalized_ext(#[trigger] raw[k]) == Some(y);
                if k < front.len() {
                    assert(normalized_ext(front[k]) == Some(y));
                }
            }
        }
    }
}

impl NameSet {
    /// Adds the names of `other` to the set.
    pub fn extend(&mut self, other: &NameSet)
        requires
            old(self).wf(),
        ensures
            final(self).wf(),
            final(self)@ == union(old(self)@, other@),
            forall|y: Seq<char>| final(self).has(y) <==> (old(self).has(y) || other.has(y)),
    {
        let mut i: usize = 0;
        while i < other.items.len()
            invariant
                i <= other.items.len(),
                self.wf(),
                self@ == union(old(self)@, other@.take(i as int)),
            decreases other.items.len() - i,
        {
            assert(other@.take(i + 1).drop_last() =~= other@.take(i as int));
            self.insert(other.items[i].clone());
            i += 1;
        }
        proof {
            assert(other@.take(other@.len() as int) =~= other@);
            lemma_union(old(self)@, other@);
            assert forall|y: Seq<char>| self.has(y) <==> (old(self).has(y) || other.has(y)) by {
            }
        }
    }

    /// Adds to the set the extensions that the texts of `raw` name.
    pub fn extend_normalized(&mut self, raw: &Vec<String>)
        requires
            old(self).wf(),
        ensures
            final(self).wf(),
            final(self)@ == union(old(self)@, normalized_set(strings(raw@))),
    {
        let mut found = NameSet::new();
        let mut i: usize = 0;
        while i < raw.len()
            invariant
                i <= raw.len(),
                found.wf(),
                found@ == normalized_set(strings(raw@).take(i as int)),
            decreases raw.len() - i,
        {
            assert(strings(raw@).take(i + 1).drop_last() =~= strings(raw@).take(i as int));
            match normalize_ext(raw[i].as_str()) {
                Some(x) => {
                    found.insert(x);
                },
                None => {},
            }
            i += 1;
        }
        assert(strings(raw@).take(raw.len() as int) =~= strings(raw@));
        self.extend(&found);
    }

    /// The names in ascending order with `sep` between each two.
    pub fn join(&self, sep: &str) -> (r: String)
        ensures
            r@ == join_with(self@, sep@),
    {
        let mut r = String::new();
        let mut i: usize = 0;
        while i < self.items.len()
            invariant
                i <= self.items.len(),
                r@ == join_with(self@.take(i as int), sep@),
            decreases self.items.len() - i,
        {
            assert(self@.take(i + 1).drop_last() =~= self@.take(i as int));
            if i > 0 {
                push_text(&mut r, sep);
            }
            push_text(&mut r, self.items[i].as_str());
            i += 1;
        }
        assert(self@.take(self@.len() as int) =~= self@);
        r
    }
}

/// A language as a language file describes it.
#[derive(Debug)]
pub struct Language {
    pub name: String,
    pub aliases: Vec<String>,
    pub extensions: Vec<String>,
}

/// A language as the contracts see it.
pub struct LanguageView {
    pub name: Seq<char>,
    pub aliases: Seq<Seq<char>>,
    pub extensions: Seq<Seq<char>>,
}

impl View for Language {
    type V = LanguageView;

    open spec fn view(&self) -> LanguageView {
        LanguageView {
            name: self.name@,
            aliases: strings(self.aliases@),
            extensions: strings(self.extensions@),
        }
    }
}

/// The languages of `v` as the contracts see them.
pub open spec fn language_views(v: Seq<Language>) -> Seq<LanguageView> {
    v.map_values(|l: Language| l@)
}

/// The list that the items of a language file are added to.
#[derive(Debug, Clone, Copy, PartialEq, Eq, Structural)]
pub enum Field {
    Aliases,
    Extensions,
}

/// How far a language file has been read.
pub struct Parse {
    /// The languages found, in the order of their first lines.
    pub languages: Seq<LanguageView>,
    /// The position of the language that items are added to.
    pub current: Option<int>,
    /// The list that items are added to.
    pub field: Option<Field>,
}

/// The first position of `languages`, at `k` or later, of a language
/// called `name`; the number of languages if there is none.
pub open spec fn position_of(languages: Seq<LanguageView>, name: Seq<char>, k: int) -> int
    decreases languages.len() - k,
{
    if 0 <= k < languages.len() && languages[k].name != name {
        position_of(languages, name, k + 1)
    } else {
        k
    }
}

/// The state after one more line of a language file. Blank lines and
/// lines that begin with `#` say nothing. A line that is not indented
/// and ends with a colon names a language. `aliases:` and `extensions:`
/// choose the list that the items after them belong to. A line `- item`
/// adds the item to the chosen list of the language named last.
pub open spec fn parse_line(st: Parse, line: Seq<char>) -> Parse {
    let raw = trim(line, whitespace());
    if raw.len() == 0 || raw[0] == '#' {
        st
    } else if !(line.len() > 0 && line[0] == ' ') && raw.last() == ':' {
        let name = trim_end(raw, set![':']);
        let at = position_of(st.languages, name, 0);
        Parse {
            languages: if at < st.languages.len() {
                st.languages
            } else {
                st.languages.push(
                    LanguageView { name, aliases: Seq::empty(), extensions: Seq::empty() },
                )
            },
            current: Some(at),
            field: None,
        }
    } else if starts_with(raw, "aliases:"@) {
        Parse { field: Some(Field::Aliases), ..st }
    } else if starts_with(raw, "extensions:"@) {
        Parse { field: Some(Field::Extensions), ..st }
    } else if starts_with(raw, "- "@) && st.current is Some && st.field is Some {
        let at = st.current.unwrap();
        let item = trim(strip_prefixes(raw, "- "@), whitespace());
        let old = st.languages[at];
        let new = match st.field.unwrap() {
            Field::Aliases => LanguageView { aliases: old.aliases.push(item), ..old },
            Field::Extensions => LanguageView { extensions: old.extensions.push(item), ..old },
        };
        Parse { languages: st.languages.update(at, new), ..st }
    } else {
        st
    }
}

/// The state after the lines `lines` of a language file.
pub open spec fn parse_lines(lines: Seq<Seq<char>>) -> Parse
    decreases lines.len(),
{
    if lines.len() == 0 {
        Parse { languages: Seq::empty(), current: None, field: None }
    } else {
        parse_line(parse_lines(lines.drop_last()), lines.last())
    }
}

/// The languages that the language file `text` describes.
pub open spec fn parsed_languages(text: Seq<char>) -> Seq<LanguageView> {
    parse_lines(lines(text)).languages
}

/// Reads a language file: for each language its name, its aliases and
/// its extensions.
pub fn parse_linguist_yaml(text: &str) -> (languages: Vec<Language>)
    ensures
        language_views(languages@) == parsed_languages(text@),
{
    let all = chars_of(text);
    let rows = lines_exec(&all);
    let mut languages: Vec<Language> = Vec::new();
    let mut current: Option<usize> = None;
    let mut field: Option<Field> = None;
    let aliases_key = chars_of("aliases:");
    let extensions_key = chars_of("extensions:");
    let dash = chars_of("- ");
    let mut i: usize = 0;
    assert(language_views(languages@) =~= Seq::<LanguageView>::empty());
    while i < rows.len()
        invariant
            i <= rows.len(),
            aliases_key@ == "aliases:"@,
            extensions_key@ == "extensions:"@,
            dash@ == "- "@,
            current is Some ==> current.unwrap() < languages@.len(),
            parse_lines(texts(rows@).take(i as int)) == (Parse {
                languages: language_views(languages@),
                current: match current {
                    Some(c) => Some(c as int),
                    None => None,
                },
                field,
            }),
        decreases rows.len() - i,
    {
        let line = &rows[i];
        proof {
            assert(texts(rows@).take(i + 1).drop_last() =~= texts(rows@).take(i as int));
        }
        let raw = trim_whitespace(line);
        if raw.len() == 0 || raw[0] == '#' {
        } else if !(line.len() > 0 && line[0] == ' ') && raw[raw.len() - 1] == ':' {
            let name = trim_end_char(&raw, ':');
            let mut at: usize = 0;
            while at < languages.len() && !same_text(&chars_of(languages[at].name.as_str()), &name)
                invariant
                    at <= languages.len(),
                    position_of(language_views(languages@), name@, 0) == position_of(
                        language_views(languages@),
                        name@,
                        at as int,
                    ),
                decreases languages.len() - at,
            {
                at += 1;
            }
            if at == languages.len() {
                let ghost before = language_views(languages@);
                languages.push(
                    Language {
                        name: string_of(&name),
                        aliases: Vec::new(),
                        extensions: Vec::new(),
                    },
                );
                proof {
                    let added = LanguageView {
                        name: name@,
                        aliases: Seq::empty(),
                        extensions: Seq::empty(),
                    };
                    assert(languages@[at as int]@.aliases =~= Seq::<Seq<char>>::empty());
                    assert(language_views(languages@) =~= before.push(added));
                }
            }
            current = Some(at);
            field = None;
        } else if starts_with_exec(&raw, &aliases_key) {
            field = Some(Field::Aliases);
        } else if starts_with_exec(&raw, &extensions_key) {
            field = Some(Field::Extensions);
        } else if starts_with_exec(&raw, &dash) && current.is_some() && field.is_some() {
            let at: usize = current.unwrap();
            let stripped = strip_prefixes_exec(&raw, &dash);
            let item = string_of(&trim_whitespace(&stripped));
            let ghost before = language_views(languages@);
            let ghost old = before[at as int];
            match field.unwrap() {
                Field::Aliases => {
                    languages[at].aliases.push(item);
                    proof {
                        let new = LanguageView { aliases: old.aliases.push(item@), ..old };
                        assert(languages@[at as int]@.aliases =~= new.aliases);
                        assert(language_views(languages@) =~= before.update(at as int, new));
                    }
                },
                Field::Extensions => {
                    languages[at].extensions.push(item);
                    proof {
                        let new = LanguageView { extensions: old.extensions.push(item@), ..old };
                        assert(languages@[at as int]@.extensions =~= new.extensions);
                        assert(language_views(languages@) =~= before.update(at as int, new));
                    }
                },
            }
        }
        i += 1;
    }
    assert(texts(rows@).take(rows.len() as int) =~= texts(rows@));
    languages
}

/// What the registry knows of a language.
pub struct EntryModel {
    /// The language's name in lower case.
    pub canonical: Seq<char>,
    /// The names that the language is found by: its name and its
    /// aliases, in lower case.
    pub keys: Seq<Seq<char>>,
    /// The language's extensions, normalized, in ascending order.
    pub extensions: Seq<Seq<char>>,
}

/// What the registry knows of the language `l`.
pub open spec fn entry_model(l: LanguageView) -> EntryModel {
    EntryModel {
        canonical: lower(l.name),
        keys: seq![lower(l.name)] + l.aliases.map_values(|a: Seq<char>| lower(a)),
        extensions: normalized_set(l.extensions),
    }
}

/// The registry of the languages `languages`.
pub open spec fn registry_of(languages: Seq<LanguageView>) -> Seq<EntryModel> {
    languages.map_values(|l: LanguageView| entry_model(l))
}

struct RegistryEntry {
    canonical: String,
    keys: Vec<String>,
    extensions: NameSet,
}

impl View for RegistryEntry {
    type V = EntryModel;

    closed spec fn view(&self) -> EntryModel {
        EntryModel {
            canonical: self.canonical@,
            keys: strings(self.keys@),
            extensions: self.extensions@,
        }
    }
}

/// The languages that can be asked for, each with its extensions.
pub struct LanguageRegistry {
    entries: Vec<RegistryEntry>,
}

impl View for LanguageRegistry {
    type V = Seq<EntryModel>;

    closed spec fn view(&self) -> Seq<EntryModel> {
        self.entries@.map_values(|e: RegistryEntry| e@)
    }
}

/// The first position of `reg`, at `k` or later, of a language that is
/// found by `key`; the number of languages if there is none.
pub open spec fn entry_for(reg: Seq<EntryModel>, key: Seq<char>, k: int) -> int
    decreases reg.len() - k,
{
    if 0 <= k < reg.len() && !reg[k].keys.contains(key) {
        entry_for(reg, key, k + 1)
    } else {
        k
    }
}

/// The first position of `reg`, at `k` or later, of a language whose
/// name in lower case is `canonical`; the number of languages if there
/// is none.
pub open spec fn entry_named(reg: Seq<EntryModel>, canonical: Seq<char>, k: int) -> int
    decreases reg.len() - k,
{
    if 0 <= k < reg.len() && reg[k].canonical != canonical {
        entry_named(reg, canonical, k + 1)
    } else {
        k
    }
}

/// The canonical name of the language that `raw` names, by its name or
/// by an alias, whatever the case of the letters.
pub open spec fn canonical_name(reg: Seq<EntryModel>, raw: Seq<char>) -> Option<Seq<char>> {
    let i = entry_for(reg, lower(raw), 0);
    if 0 <= i < reg.len() {
        Some(reg[i].canonical)
    } else {
        None
    }
}

/// The extensions of the language whose canonical name is `canonical`.
pub open spec fn extensions_of(reg: Seq<EntryModel>, canonical: Seq<char>) -> Seq<Seq<char>> {
    let j = entry_named(reg, canonical, 0);
    if 0 <= j < reg.len() {
        reg[j].extensions
    } else {
        Seq::empty()
    }
}

/// What `entry_for` gives.
pub proof fn lemma_entry_for(reg: Seq<EntryModel>, key: Seq<char>, k: int)
    requires
        0 <= k <= reg.len(),
    ensures
        k <= entry_for(reg, key, k) <= reg.len(),
        entry_for(reg, key, k) < reg.len() ==> reg[entry_for(reg, key, k)].keys.contains(key),
    decreases reg.len() - k,
{
    if k < reg.len() && !reg[k].keys.contains(key) {
        lemma_entry_for(reg, key, k + 1);
    }
}

/// A language with the canonical name `canonical` stands at `i`: the
/// first such language stands there or before.
pub proof fn lemma_entry_named(reg: Seq<EntryModel>, canonical: Seq<char>, k: int, i: int)
    requires
        0 <= k <= i < reg.len(),
        reg[i].canonical == canonical,
    ensures
        k <= entry_named(reg, canonical, k) <= i,
    decreases i - k,
{
    if k < i && reg[k].canonical != canonical {
        lemma_entry_named(reg, canonical, k + 1, i);
    }
}

impl LanguageRegistry {
    /// The extensions of each language stand in ascending order.
    pub open spec fn wf(&self) -> bool {
        forall|i: int| 0 <= i < self@.len() ==> ascending(#[trigger] self@[i].extensions)
    }

    /// The registry of the languages `languages`.
    pub fn new(languages: &Vec<Language>) -> (r: LanguageRegistry)
        ensures
            r.wf(),
            r@ == registry_of(language_views(languages@)),
    {
        let mut entries: Vec<RegistryEntry> = Vec::new();
        let mut i: usize = 0;
        let ghost all = language_views(languages@);
        while i < languages.len()
            invariant
                i <= languages.len(),
                all == language_views(languages@),
                entries@.len() == i,
                forall|k: int| 0 <= k < i ==> (#[trigger] entries@[k])@ == entry_model(all[k]),
                forall|k: int| 0 <= k < i ==> entries@[k].extensions.wf(),
            decreases languages.len() - i,
        {
            let language = &languages[i];
            let canonical = string_of(&lower_exec(&chars_of(language.name.as_str())));
            let mut keys: Vec<String> = Vec::new();
            keys.push(string_of(&lower_exec(&chars_of(language.name.as_str()))));
            let mut a: usize = 0;
            let ghost low = language@.aliases.map_values(|x: Seq<char>| lower(x));
            while a < language.aliases.len()
                invariant
                    a <= language.aliases.len(),
                    low == language@.aliases.map_values(|x: Seq<char>| lower(x)),
                    strings(keys@) == seq![lower(language@.name)] + low.take(a as int),
                decreases language.aliases.len() - a,
            {
                let ghost before = strings(keys@);
                keys.push(string_of(&lower_exec(&chars_of(language.aliases[a].as_str()))));
                assert(strings(keys@) =~= before.push(lower(language@.aliases[a as int])));
                a += 1;
            }
            assert(low.take(low.len() as int) =~= low);
            let mut extensions = NameSet::new();
            extensions.extend_normalized(&language.extensions);
            proof {
                lemma_normalized_set(language@.extensions);
                lemma_union_empty(normalized_set(language@.extensions));
            }
            entries.push(RegistryEntry { canonical, keys, extensions });
            i += 1;
        }
        let r = LanguageRegistry { entries };
        r
    }

    /// The number of languages.
    pub fn len(&self) -> (n: usize)
        ensures
            n == self@.len(),
    {
        self.entries.len()
    }

    fn locate(&self, key: &str) -> (r: usize)
        ensures
            r == entry_for(self@, key@, 0),
            r <= self@.len(),
    {
        let wanted: String = key.to_owned();
        let mut i: usize = 0;
        while i < self.entries.len()
            invariant
                i <= self.entries.len(),
                wanted@ == key@,
                entry_for(self@, key@, 0) == entry_for(self@, key@, i as int),
            decreases self.entries.len() - i,
        {
            let entry = &self.entries[i];
            let mut k: usize = 0;
            while k < entry.keys.len()
                invariant
                    k <= entry.keys.len(),
                    i < self.entries.len(),
                    wanted@ == key@,
                    entry@ == self@[i as int],
                    entry_for(self@, key@, 0) == entry_for(self@, key@, i as int),
                    forall|l: int| 0 <= l < k ==> strings(entry.keys@)[l] != key@,
                decreases entry.keys.len() - k,
            {
                if entry.keys[k] == wanted {
                    assert(strings(entry.keys@)[k as int] == key@);
                    return i;
                }
                k += 1;
            }
            i += 1;
        }
        i
    }

    fn locate_named(&self, canonical: &String) -> (r: usize)
        ensures
            r == entry_named(self@, canonical@, 0),
            r <= self@.len(),
    {
        let mut i: usize = 0;
        while i < self.entries.len()
            invariant
                i <= self.entries.len(),
                entry_named(self@, canonical@, 0) == entry_named(self@, canonical@, i as int),
            decreases self.entries.len() - i,
        {
            if self.entries[i].canonical == *canonical {
                return i;
            }
            i += 1;
        }
        i
    }
}

/// The union of the empty sequence with an ascending one is that one.
pub proof fn lemma_union_empty(b: Seq<Seq<char>>)
    requires
        ascending(b),
    ensures
        union(Seq::empty(), b) == b,
    decreases b.len(),
{
    if b.len() > 0 {
        let front = b.drop_last();
        lemma_union_empty(front);
        lemma_place_from(front, b.last(), 0);
    }
}

/// The canonical name of the language that `raw` names.
pub fn canonical_language_name(registry: &LanguageRegistry, raw: &str) -> (r: Option<String>)
    ensures
        match r {
            Some(name) => canonical_name(registry@, raw@) == Some(name@),
            None => canonical_name(registry@, raw@) is None,
        },
{
    let key = string_of(&lower_exec(&chars_of(raw)));
    let i = registry.locate(key.as_str());
    if i < registry.entries.len() {
        Some(registry.entries[i].canonical.clone())
    } else {
        None
    }
}

/// `raw` asks for all languages.
pub open spec fn is_all(raw: Seq<char>) -> bool {
    lower(raw) == "all"@
}

/// The languages asked for: those given, or all if none is given.
pub open spec fn requested(langs: Seq<Seq<char>>) -> Seq<Seq<char>> {
    if langs.len() == 0 {
        seq!["all"@]
    } else {
        langs
    }
}

/// `raw` asks for all languages or names one that the registry holds.
pub open spec fn known(reg: Seq<EntryModel>, raw: Seq<char>) -> bool {
    is_all(raw) || canonical_name(reg, raw) is Some
}

/// The first position of `req`, at `k` or later, of a name that is not
/// known; the length of `req` if all are known.
pub open spec fn first_unknown(reg: Seq<EntryModel>, req: Seq<Seq<char>>, k: int) -> int
    decreases req.len() - k,
{
    if 0 <= k < req.len() && known(reg, req[k]) {
        first_unknown(reg, req, k + 1)
    } else {
        k
    }
}

/// The extensions of the first `upto` languages of the registry.
pub open spec fn all_extensions(reg: Seq<EntryModel>, upto: int) -> Seq<Seq<char>>
    decreases upto,
{
    if 0 < upto <= reg.len() {
        union(all_extensions(reg, upto - 1), reg[upto - 1].extensions)
    } else {
        Seq::empty()
    }
}

/// The extensions that asking for `raw` brings.
pub open spec fn offered(reg: Seq<EntryModel>, raw: Seq<char>) -> Seq<Seq<char>> {
    if is_all(raw) {
        all_extensions(reg, reg.len() as int)
    } else {
        match canonical_name(reg, raw) {
            Some(c) => extensions_of(reg, c),
            None => Seq::empty(),
        }
    }
}

/// `start` together with what the first `upto` names of `req` bring.
pub open spec fn gathered(
    reg: Seq<EntryModel>,
    req: Seq<Seq<char>>,
    start: Seq<Seq<char>>,
    upto: int,
) -> Seq<Seq<char>>
    decreases upto,
{
    if 0 < upto <= req.len() {
        union(gathered(reg, req, start, upto - 1), offered(reg, req[upto - 1]))
    } else {
        start
    }
}

/// The extensions selected by the languages `langs` and the extensions
/// `ext`, before the header mode is applied.
pub open spec fn selected(
    reg: Seq<EntryModel>,
    langs: Seq<Seq<char>>,
    ext: Seq<Seq<char>>,
) -> Seq<Seq<char>> {
    gathered(reg, requested(langs), normalized_set(ext), requested(langs).len() as int)
}

/// Asking for `raw` makes the header mode apply: it asks for all
/// languages, for C or for C++.
pub open spec fn wants_headers(reg: Seq<EntryModel>, raw: Seq<char>) -> bool {
    ||| is_all(raw)
    ||| canonical_name(reg, raw) == Some("c"@)
    ||| canonical_name(reg, raw) == Some("c++"@)
}

/// One of the names of `req` makes the header mode apply.
pub open spec fn headers_apply(reg: Seq<EntryModel>, req: Seq<Seq<char>>) -> bool {
    exists|k: int| 0 <= k < req.len() && wants_headers(reg, #[trigger] req[k])
}

/// Whether the built set holds the extension `y`.
pub open spec fn built(
    reg: Seq<EntryModel>,
    langs: Seq<Seq<char>>,
    ext: Seq<Seq<char>>,
    headers: HeaderMode,
    y: Seq<char>,
) -> bool {
    if headers_apply(reg, requested(langs)) {
        header_rule(headers, selected(reg, langs, ext).contains(y), is_header_ext(y))
    } else {
        selected(reg, langs, ext).contains(y)
    }
}

/// The message for a language name that the registry does not hold.
pub open spec fn invalid_lang(raw: Seq<char>) -> Seq<char> {
    "invalid --lang value: "@ + raw
}

/// Whether `raw` asks for all languages.
pub fn is_all_exec(raw: &str) -> (b: bool)
    ensures
        b == is_all(raw@),
{
    let low = lower_exec(&chars_of(raw));
    let all = chars_of("all");
    same_text(&low, &all)
}

/// The set of the extensions to look for: those that `ext` names and
/// those of the languages `langs`, of all languages if none is given,
/// with the header mode applied if all languages, C or C++ are asked
/// for. A name that the registry does not hold is an error.
pub fn build_extensions(
    registry: &LanguageRegistry,
    langs: &Vec<String>,
    ext: &Vec<String>,
    headers: HeaderMode,
) -> (r: Result<NameSet, String>)
    requires
        registry.wf(),
    ensures
        match r {
            Ok(set) => {
                &&& first_unknown(registry@, requested(strings(langs@)), 0) == requested(
                    strings(langs@),
                ).len()
                &&& set.wf()
                &&& forall|y: Seq<char>|
                    set.has(y) <==> built(registry@, strings(langs@), strings(ext@), headers, y)
            },
            Err(message) => {
                let at = first_unknown(registry@, requested(strings(langs@)), 0);
                &&& 0 <= at < requested(strings(langs@)).len()
                &&& message@ == invalid_lang(requested(strings(langs@))[at])
            },
        },
{
    let ghost reg = registry@;
    let ghost req = requested(strings(langs@));
    let mut chosen = NameSet::new();
    chosen.extend_normalized(ext);
    proof {
        lemma_normalized_set(strings(ext@));
        lemma_union_empty(normalized_set(strings(ext@)));
    }
    let mut everything: Vec<String> = Vec::new();
    everything.push("all".to_owned());
    let names: &Vec<String> = if langs.len() == 0 {
        &everything
    } else {
        langs
    };
    let mut apply: bool = false;
    let mut i: usize = 0;
    while i < names.len()
        invariant
            i <= names.len(),
            registry.wf(),
            reg == registry@,
            strings(names@) == req,
            req == requested(strings(langs@)),
            chosen.wf(),
            chosen@ == gathered(reg, req, normalized_set(strings(ext@)), i as int),
            first_unknown(reg, req, 0) == first_unknown(reg, req, i as int),
            apply == exists|k: int| 0 <= k < i && wants_headers(reg, #[trigger] req[k]),
        decreases names.len() - i,
    {
        let raw = names[i].as_str();
        if is_all_exec(raw) {
            let mut j: usize = 0;
            let mut every = NameSet::new();
            while j < registry.entries.len()
                invariant
                    j <= registry.entries.len(),
                    registry.wf(),
                    reg == registry@,
                    every.wf(),
                    every@ == all_extensions(reg, j as int),
                decreases registry.entries.len() - j,
            {
                every.extend(&registry.entries[j].extensions);
                j += 1;
            }
            chosen.extend(&every);
            apply = true;
        } else {
            match canonical_language_name(registry, raw) {
                None => {
                    let mut message = String::new();
                    push_text(&mut message, "invalid --lang value: ");
                    push_text(&mut message, raw);
                    return Err(message);
                },
                Some(name) => {
                    let j = registry.locate_named(&name);
                    proof {
                        let at = entry_for(reg, lower(raw@), 0);
                        lemma_entry_for(reg, lower(raw@), 0);
                        lemma_entry_named(reg, name@, 0, at);
                    }
                    chosen.extend(&registry.entries[j].extensions);
                    if str_eq(name.as_str(), "c") || str_eq(name.as_str(), "c++") {
                        apply = true;
                    }
                },
            }
        }
        i += 1;
    }
    if apply {
        apply_header_mode(&mut chosen, headers);
    }
    Ok(chosen)
}

/// The name under which the language `raw` is shown: its canonical
/// name, or `raw` in lower case if the registry does not hold it.
pub open spec fn display_name(reg: Seq<EntryModel>, raw: Seq<char>) -> Seq<char> {
    match canonical_name(reg, raw) {
        Some(c) => c,
        None => lower(raw),
    }
}

/// The names under which the languages `langs` are shown, each once, in
/// ascending order.
pub open spec fn display_names(reg: Seq<EntryModel>, langs: Seq<Seq<char>>) -> Seq<Seq<char>>
    decreases langs.len(),
{
    if langs.len() == 0 {
        Seq::empty()
    } else {
        with_text(display_names(reg, langs.drop_last()), display_name(reg, langs.last()))
    }
}

/// How the languages asked for are shown: `all` if none is given, else
/// their names with commas between them.
pub open spec fn displayed_langs(reg: Seq<EntryModel>, langs: Seq<Seq<char>>) -> Seq<char> {
    if langs.len() == 0 {
        "all"@
    } else {
        join_with(display_names(reg, langs), ","@)
    }
}

/// Shows the languages asked for.
pub fn display_langs(registry: &LanguageRegistry, langs: &Vec<String>) -> (r: String)
    ensures
        r@ == displayed_langs(registry@, strings(langs@)),
{
    if langs.len() == 0 {
        return "all".to_owned();
    }
    let mut names = NameSet::new();
    let mut i: usize = 0;
    while i < langs.len()
        invariant
            i <= langs.len(),
            names.wf(),
            names@ == display_names(registry@, strings(langs@).take(i as int)),
        decreases langs.len() - i,
    {
        assert(strings(langs@).take(i + 1).drop_last() =~= strings(langs@).take(i as int));
        let name = match canonical_language_name(registry, langs[i].as_str()) {
            Some(c) => c,
            None => string_of(&lower_exec(&chars_of(langs[i].as_str()))),
        };
        names.insert(name);
        i += 1;
    }
    assert(strings(langs@).take(langs.len() as int) =~= strings(langs@));
    names.join(",")
}

} // verus!
