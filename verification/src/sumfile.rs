//! The `.sum` file: one `<name> <hash>` entry per line; blank lines and lines
//! whose first non-blank character is `#` are ignored.
use vstd::prelude::*;
use crate::order::text_lt;
use crate::sort::{Ordered, sort_ordered, sort_stable};
use crate::text::{chars_of, is_white_space, string_from_chars, white_space};

verus! {

broadcast use vstd::seq_lib::group_seq_properties;

/// The lines of `s`: the pieces between `'\n'` characters.  A trailing
/// `'\n'` leaves an empty last piece.
pub open spec fn split_lines(s: Seq<char>) -> Seq<Seq<char>>
    decreases s.len(),
{
    if s.len() == 0 {
        seq![Seq::empty()]
    } else {
        let r = split_lines(s.drop_last());
        if s.last() == '\n' {
            r.push(Seq::empty())
        } else {
            r.update(r.len() - 1, r.last().push(s.last()))
        }
    }
}

/// The maximal runs of non-white-space characters of `s`, in order.
pub open spec fn split_tokens(s: Seq<char>) -> Seq<Seq<char>>
    decreases s.len(),
{
    if s.len() == 0 {
        Seq::empty()
    } else {
        let r = split_tokens(s.drop_last());
        if is_white_space(s.last()) {
            r
        } else if s.len() >= 2 && !is_white_space(s[s.len() - 2]) {
            r.update(r.len() - 1, r.last().push(s.last()))
        } else {
            r.push(seq![s.last()])
        }
    }
}

/// The entry a line holds: its first two tokens, unless it has fewer or is a
/// comment.
pub open spec fn line_entry(line: Seq<char>) -> Option<(Seq<char>, Seq<char>)> {
    let t = split_tokens(line);
    if t.len() >= 2 && t[0][0] != '#' {
        Some((t[0], t[1]))
    } else {
        None
    }
}

/// The entries of a list of lines, in order.
pub open spec fn lines_entries(lines: Seq<Seq<char>>) -> Seq<(Seq<char>, Seq<char>)>
    decreases lines.len(),
{
    if lines.len() == 0 {
        Seq::empty()
    } else {
        let r = lines_entries(lines.drop_last());
        match line_entry(lines.last()) {
            Some(e) => r.push(e),
            None => r,
        }
    }
}

/// The entries of a sum file's text, in the order of its lines.
pub open spec fn sum_entries(text: Seq<char>) -> Seq<(Seq<char>, Seq<char>)> {
    lines_entries(split_lines(text))
}

/// Picks the entries called `name`.
pub open spec fn named(name: Seq<char>) -> spec_fn((Seq<char>, Seq<char>)) -> bool {
    |e: (Seq<char>, Seq<char>)| e.0 == name
}

/// Picks the entries not called `name`.
pub open spec fn not_named(name: Seq<char>) -> spec_fn((Seq<char>, Seq<char>)) -> bool {
    |e: (Seq<char>, Seq<char>)| e.0 != name
}

/// The hash of the first entry called `name`, if there is one.
pub open spec fn lookup_entry(entries: Seq<(Seq<char>, Seq<char>)>, name: Seq<char>) -> Option<Seq<char>> {
    let found = entries.filter(named(name));
    if found.len() > 0 {
        Some(found[0].1)
    } else {
        None
    }
}

/// The line that holds an entry.
pub open spec fn entry_line(e: (Seq<char>, Seq<char>)) -> Seq<char> {
    e.0 + seq![' '] + e.1
}

/// The text of a sum file that holds `entries`: one line each, every line
/// ended by `'\n'`.
pub open spec fn render_entries(entries: Seq<(Seq<char>, Seq<char>)>) -> Seq<char>
    decreases entries.len(),
{
    if entries.len() == 0 {
        Seq::empty()
    } else {
        render_entries(entries.drop_last()) + entry_line(entries.last()) + seq!['\n']
    }
}

pub open spec fn text_view(t: Option<&str>) -> Option<Seq<char>> {
    match t {
        Some(s) => Some(s@),
        None => None,
    }
}

/// The entries of a sum file that may not exist yet.
pub open spec fn prior_entries(existing: Option<Seq<char>>) -> Seq<(Seq<char>, Seq<char>)> {
    match existing {
        Some(t) => sum_entries(t),
        None => Seq::empty(),
    }
}

/// The entries after `name` is set to `hash`: every other entry kept, the
/// new one added, all sorted stably by name.
pub open spec fn updated_entries(existing: Option<Seq<char>>, name: Seq<char>, hash: Seq<char>) -> Seq<(Seq<char>, Seq<char>)> {
    sort_ordered::<SumEntry>(
        prior_entries(existing).filter(not_named(name)).push((name, hash)),
    )
}

/// One entry of a sum file.
pub struct SumEntry {
    pub name: String,
    pub hash: String,
}

impl View for SumEntry {
    type V = (Seq<char>, Seq<char>);

    open spec fn view(&self) -> (Seq<char>, Seq<char>) {
        (self.name@, self.hash@)
    }
}

impl Ordered for SumEntry {
    open spec fn precedes(a: (Seq<char>, Seq<char>), b: (Seq<char>, Seq<char>)) -> bool {
        text_lt(a.0, b.0)
    }

    proof fn lemma_precedes_transitive(a: (Seq<char>, Seq<char>), b: (Seq<char>, Seq<char>), c: (Seq<char>, Seq<char>)) {
        crate::order::lemma_text_lt_transitive(a.0, b.0, c.0);
    }

    proof fn lemma_precedes_asymmetric(a: (Seq<char>, Seq<char>), b: (Seq<char>, Seq<char>)) {
        crate::order::lemma_text_lt_asymmetric(a.0, b.0);
    }

    proof fn lemma_not_precedes_transitive(a: (Seq<char>, Seq<char>), b: (Seq<char>, Seq<char>), c: (Seq<char>, Seq<char>)) {
        crate::order::lemma_text_not_lt_transitive(a.0, b.0, c.0);
    }

    fn goes_before(&self, other: &Self) -> (r: bool) {
        crate::order::text_before(self.name.as_str(), other.name.as_str())
    }

    fn duplicate(&self) -> (r: Self) {
        SumEntry { name: self.name.clone(), hash: self.hash.clone() }
    }
}

pub open spec fn lines_view(v: Seq<Vec<char>>) -> Seq<Seq<char>> {
    v.map_values(|l: Vec<char>| l@)
}

pub open spec fn entries_view(v: Seq<SumEntry>) -> Seq<(Seq<char>, Seq<char>)> {
    v.map_values(|e: SumEntry| e@)
}

proof fn lemma_split_lines_nonempty(s: Seq<char>)
    ensures
        split_lines(s).len() >= 1,
    decreases s.len(),
{
    if s.len() > 0 {
        lemma_split_lines_nonempty(s.drop_last());
    }
}

proof fn lemma_split_tokens_last(s: Seq<char>)
    requires
        s.len() >= 1,
        !is_white_space(s.last()),
    ensures
        split_tokens(s).len() >= 1,
    decreases s.len(),
{
    if s.len() >= 2 && !is_white_space(s[s.len() - 2]) {
        lemma_split_tokens_last(s.drop_last());
    }
}

fn split_lines_of(cs: &[char]) -> (r: Vec<Vec<char>>)
    ensures
        lines_view(r@) == split_lines(cs@),
{
    let mut lines: Vec<Vec<char>> = Vec::new();
    let mut cur: Vec<char> = Vec::new();
    let mut i: usize = 0;
    assert(cs@.take(0) =~= Seq::<char>::empty());
    while i < cs.len()
        invariant
            i <= cs.len(),
            lines_view(lines@).push(cur@) == split_lines(cs@.take(i as int)),
        decreases cs.len() - i,
    {
        let c = cs[i];
        let ghost before = split_lines(cs@.take(i as int));
        assert(cs@.take(i + 1).drop_last() =~= cs@.take(i as int));
        if c == '\n' {
            let ghost prev = lines@;
            let done = cur;
            lines.push(done);
            cur = Vec::new();
            assert(lines_view(lines@) =~= lines_view(prev).push(done@));
        } else {
            cur.push(c);
        }
        assert(lines_view(lines@).push(cur@) =~= split_lines(cs@.take(i + 1)));
        i = i + 1;
    }
    lines.push(cur);
    assert(cs@.take(cs.len() as int) =~= cs@);
    assert(lines_view(lines@) =~= split_lines(cs@));
    lines
}


/// Every token is non-empty and free of white space.
pub proof fn lemma_tokens_are_words(s: Seq<char>)
    ensures
        forall|k: int| 0 <= k < split_tokens(s).len() ==> (#[trigger] split_tokens(s)[k]).len() > 0,
        forall|k: int, j: int|
            0 <= k < split_tokens(s).len() && 0 <= j < split_tokens(s)[k].len()
                ==> !is_white_space(#[trigger] split_tokens(s)[k][j]),
    decreases s.len(),
{
    if s.len() > 0 {
        lemma_tokens_are_words(s.drop_last());
        if !is_white_space(s.last()) && s.len() >= 2 && !is_white_space(s[s.len() - 2]) {
            lemma_split_tokens_last(s.drop_last());
        }
    }
}

fn split_tokens_of(line: &[char]) -> (r: Vec<Vec<char>>)
    ensures
        lines_view(r@) == split_tokens(line@),
{
    let mut toks: Vec<Vec<char>> = Vec::new();
    let mut cur: Vec<char> = Vec::new();
    let mut i: usize = 0;
    assert(line@.take(0) =~= Seq::<char>::empty());
    while i < line.len()
        invariant
            i <= line.len(),
            cur@.len() > 0 <==> (i > 0 && !is_white_space(line@[i - 1])),
            cur@.len() > 0 ==> lines_view(toks@).push(cur@) == split_tokens(line@.take(i as int)),
            cur@.len() == 0 ==> lines_view(toks@) == split_tokens(line@.take(i as int)),
        decreases line.len() - i,
    {
        let c = line[i];
        let ghost prev = toks@;
        let ghost prev_cur = cur@;
        assert(line@.take(i + 1).drop_last() =~= line@.take(i as int));
        assert(line@.take(i + 1).last() == c);
        if white_space(c) {
            if cur.len() > 0 {
                let done = cur;
                toks.push(done);
                cur = Vec::new();
                assert(lines_view(toks@) =~= lines_view(prev).push(done@));
            }
        } else {
            let had = cur.len() > 0;
            cur.push(c);
            if had {
                assert(line@.take(i + 1)[i - 1] == line@[i - 1]);
                assert(lines_view(toks@).push(cur@) =~= lines_view(prev).push(prev_cur).update(
                    lines_view(prev).len() as int,
                    prev_cur.push(c),
                ));
            } else {
                assert(i == 0 || is_white_space(line@.take(i + 1)[i - 1]));
                assert(cur@ =~= seq![c]);
            }
        }
        i = i + 1;
    }
    assert(line@.take(line.len() as int) =~= line@);
    if cur.len() > 0 {
        let ghost prev = toks@;
        let done = cur;
        toks.push(done);
        assert(lines_view(toks@) =~= lines_view(prev).push(done@));
    }
    toks
}

pub open spec fn entry_view(e: Option<SumEntry>) -> Option<(Seq<char>, Seq<char>)> {
    match e {
        Some(x) => Some(x@),
        None => None,
    }
}

fn entry_of_line(line: &[char]) -> (r: Option<SumEntry>)
    ensures
        entry_view(r) == line_entry(line@),
{
    let toks = split_tokens_of(line);
    proof {
        lemma_tokens_are_words(line@);
        assert(forall|k: int| 0 <= k < toks@.len() ==> toks@[k]@ == split_tokens(line@)[k]);
    }
    if toks.len() >= 2 {
        assert(toks[0]@ == split_tokens(line@)[0]);
        if toks[0][0] != '#' {
            let name = string_from_chars(toks[0].as_slice());
            let hash = string_from_chars(toks[1].as_slice());
            return Some(SumEntry { name, hash });
        }
    }
    None
}

/// Parses the text of a sum file into its entries.
pub fn parse_sum_entries(text: &str) -> (r: Vec<SumEntry>)
    ensures
        entries_view(r@) == sum_entries(text@),
{
    let cs = chars_of(text);
    let lines = split_lines_of(cs.as_slice());
    let ghost ls = lines_view(lines@);
    let mut r: Vec<SumEntry> = Vec::new();
    let mut i: usize = 0;
    assert(ls.take(0) =~= Seq::<Seq<char>>::empty());
    while i < lines.len()
        invariant
            i <= lines.len(),
            ls == lines_view(lines@),
            entries_view(r@) == lines_entries(ls.take(i as int)),
        decreases lines.len() - i,
    {
        let ghost prev = r@;
        assert(ls.take(i + 1).drop_last() =~= ls.take(i as int));
        assert(ls.take(i + 1).last() == lines@[i as int]@);
        match entry_of_line(lines[i].as_slice()) {
            Some(e) => {
                r.push(e);
                assert(entries_view(r@) =~= entries_view(prev).push(e@));
            },
            None => {},
        }
        i = i + 1;
    }
    assert(ls.take(lines.len() as int) =~= ls);
    r
}

pub open spec fn string_view(s: Option<String>) -> Option<Seq<char>> {
    match s {
        Some(x) => Some(x@),
        None => None,
    }
}

fn lookup_in(entries: &[SumEntry], name: &str) -> (r: Option<String>)
    ensures
        string_view(r) == lookup_entry(entries_view(entries@), name@),
{
    let ghost es = entries_view(entries@);
    let ghost p = named(name@);
    let wanted = name.to_owned();
    let mut i: usize = 0;
    assert(es.take(0) =~= Seq::<(Seq<char>, Seq<char>)>::empty());
    reveal(Seq::filter);
    while i < entries.len()
        invariant
            i <= entries.len(),
            es == entries_view(entries@),
            wanted@ == name@,
            p == named(name@),
            es.take(i as int).filter(p).len() == 0,
        decreases entries.len() - i,
    {
        assert(es.take(i + 1) =~= es.take(i as int).push(es[i as int]));
        proof { es.take(i as int).lemma_filter_push(es[i as int], p); }
        if entries[i].name == wanted {
            proof {
                assert(es =~= es.take(i + 1) + es.skip(i + 1));
                Seq::filter_distributes_over_add(es.take(i + 1), es.skip(i + 1), p);
            }
            return Some(entries[i].hash.clone());
        }
        i = i + 1;
    }
    assert(es.take(entries.len() as int) =~= es);
    None
}

/// The hash stored for `name` in a sum file whose text is `contents`
/// (`None` where the file does not exist): that of the first entry of that
/// name, if there is one.
pub fn load_sum_entry(contents: Option<&str>, name: &str) -> (r: Option<String>)
    ensures
        string_view(r) == match text_view(contents) {
            Some(t) => lookup_entry(sum_entries(t), name@),
            None => None,
        },
{
    match contents {
        None => None,
        Some(text) => {
            let entries = parse_sum_entries(text);
            lookup_in(entries.as_slice(), name)
        },
    }
}

fn without_name(entries: &[SumEntry], name: &str) -> (r: Vec<SumEntry>)
    ensures
        entries_view(r@) == entries_view(entries@).filter(not_named(name@)),
{
    let ghost es = entries_view(entries@);
    let ghost p = not_named(name@);
    let unwanted = name.to_owned();
    let mut r: Vec<SumEntry> = Vec::new();
    let mut i: usize = 0;
    assert(es.take(0) =~= Seq::<(Seq<char>, Seq<char>)>::empty());
    reveal(Seq::filter);
    while i < entries.len()
        invariant
            i <= entries.len(),
            es == entries_view(entries@),
            unwanted@ == name@,
            p == not_named(name@),
            entries_view(r@) == es.take(i as int).filter(p),
        decreases entries.len() - i,
    {
        assert(es.take(i + 1) =~= es.take(i as int).push(es[i as int]));
        proof { es.take(i as int).lemma_filter_push(es[i as int], p); }
        if entries[i].name != unwanted {
            let ghost prev = r@;
            let e = entries[i].duplicate();
            r.push(e);
            assert(entries_view(r@) =~= entries_view(prev).push(e@));
        }
        i = i + 1;
    }
    assert(es.take(entries.len() as int) =~= es);
    r
}

fn render(entries: &[SumEntry]) -> (r: String)
    ensures
        r@ == render_entries(entries_view(entries@)),
{
    let ghost es = entries_view(entries@);
    let mut out: Vec<char> = Vec::new();
    let mut i: usize = 0;
    assert(es.take(0) =~= Seq::<(Seq<char>, Seq<char>)>::empty());
    while i < entries.len()
        invariant
            i <= entries.len(),
            es == entries_view(entries@),
            out@ == render_entries(es.take(i as int)),
        decreases entries.len() - i,
    {
        let ghost prev = out@;
        let mut name = chars_of(entries[i].name.as_str());
        let mut hash = chars_of(entries[i].hash.as_str());
        out.append(&mut name);
        out.push(' ');
        out.append(&mut hash);
        out.push('\n');
        assert(es.take(i + 1).drop_last() =~= es.take(i as int));
        assert(out@ =~= prev + entry_line(es[i as int]) + seq!['\n']);
        i = i + 1;
    }
    assert(es.take(entries.len() as int) =~= es);
    string_from_chars(out.as_slice())
}

/// The new text of a sum file whose text is `existing` (`None` where the
/// file does not exist yet) once the entry `name` holds `hash`: every other
/// entry is kept, and all are written sorted by name, one per line.
pub fn save_sum_entry(existing: Option<&str>, name: &str, hash: &str) -> (r: String)
    ensures
        r@ == render_entries(updated_entries(text_view(existing), name@, hash@)),
{
    let prior = match existing {
        Some(text) => parse_sum_entries(text),
        None => Vec::new(),
    };
    assert(entries_view(prior@) == prior_entries(text_view(existing)));
    let mut kept = without_name(prior.as_slice(), name);
    let ghost before = kept@;
    kept.push(SumEntry { name: name.to_owned(), hash: hash.to_owned() });
    assert(entries_view(kept@) =~= entries_view(before).push((name@, hash@)));
    let sorted = sort_stable(kept.as_slice());
    assert(entries_view(sorted@) == sorted@.map_values(|x: SumEntry| x@));
    render(sorted.as_slice())
}


/// A single word: non-empty and free of white space.
pub open spec fn is_word(w: Seq<char>) -> bool {
    w.len() > 0 && forall|j: int| 0 <= j < w.len() ==> !is_white_space(#[trigger] w[j])
}

/// An entry that a sum file can hold: a name and a hash that are single
/// words, the name not starting a comment.
pub open spec fn is_entry(e: (Seq<char>, Seq<char>)) -> bool {
    is_word(e.0) && is_word(e.1) && e.0[0] != '#'
}

pub open spec fn all_entries(es: Seq<(Seq<char>, Seq<char>)>) -> bool {
    forall|i: int| 0 <= i < es.len() ==> is_entry(#[trigger] es[i])
}

/// Free of white space (and possibly empty).
pub open spec fn spaceless(w: Seq<char>) -> bool {
    forall|j: int| 0 <= j < w.len() ==> !is_white_space(#[trigger] w[j])
}

pub open spec fn all_spaceless(es: Seq<(Seq<char>, Seq<char>)>) -> bool {
    forall|i: int| 0 <= i < es.len() ==> spaceless(#[trigger] es[i].0) && spaceless(es[i].1)
}

/// Picks the entries that a sum file can hold.
pub open spec fn storable() -> spec_fn((Seq<char>, Seq<char>)) -> bool {
    |e: (Seq<char>, Seq<char>)| is_entry(e)
}

proof fn lemma_entries_spaceless(es: Seq<(Seq<char>, Seq<char>)>)
    requires
        all_entries(es),
    ensures
        all_spaceless(es),
{
    assert forall|i: int| 0 <= i < es.len() implies spaceless(#[trigger] es[i].0) && spaceless(es[i].1) by {
        assert(is_entry(es[i]));
    }
}

proof fn lemma_filter_all(s: Seq<(Seq<char>, Seq<char>)>, p: spec_fn((Seq<char>, Seq<char>)) -> bool)
    requires
        forall|i: int| 0 <= i < s.len() ==> #[trigger] p(s[i]),
    ensures
        s.filter(p) == s,
    decreases s.len(),
{
    reveal(Seq::filter);
    if s.len() > 0 {
        let t = s.drop_last();
        assert forall|i: int| 0 <= i < t.len() implies #[trigger] p(t[i]) by {
            assert(t[i] == s[i]);
        }
        lemma_filter_all(t, p);
        assert(p(s[s.len() - 1]));
        assert(t.push(s.last()) =~= s);
    }
}

proof fn lemma_split_lines_append_line(x: Seq<char>, y: Seq<char>)
    requires
        forall|j: int| 0 <= j < y.len() ==> y[j] != '\n',
    ensures
        split_lines(x + y) == split_lines(x).update(
            split_lines(x).len() - 1,
            split_lines(x).last() + y,
        ),
    decreases y.len(),
{
    lemma_split_lines_nonempty(x);
    if y.len() == 0 {
        assert(x + y =~= x);
        assert(split_lines(x).last() + y =~= split_lines(x).last());
        assert(split_lines(x).update(split_lines(x).len() - 1, split_lines(x).last()) =~= split_lines(x));
    } else {
        let y0 = y.drop_last();
        lemma_split_lines_append_line(x, y0);
        assert((x + y).drop_last() =~= x + y0);
        assert((x + y).last() == y.last());
        assert(y[y.len() - 1] != '\n');
        assert((split_lines(x).last() + y0).push(y.last()) =~= split_lines(x).last() + y);
        let a = split_lines(x + y0);
        assert(a.update(a.len() - 1, a.last().push(y.last())) =~= split_lines(x).update(
            split_lines(x).len() - 1,
            split_lines(x).last() + y,
        ));
    }
}

proof fn lemma_render_lines(es: Seq<(Seq<char>, Seq<char>)>)
    requires
        all_spaceless(es),
    ensures
        split_lines(render_entries(es)) == es.map_values(|e: (Seq<char>, Seq<char>)| entry_line(e)).push(
            Seq::<char>::empty(),
        ),
    decreases es.len(),
{
    if es.len() == 0 {
        assert(split_lines(Seq::<char>::empty()) =~= seq![Seq::<char>::empty()]);
    } else {
        let rest = es.drop_last();
        assert(all_spaceless(rest)) by {
            assert forall|i: int| 0 <= i < rest.len() implies spaceless(#[trigger] rest[i].0) && spaceless(rest[i].1) by {
                assert(rest[i] == es[i]);
            }
        }
        lemma_render_lines(rest);
        let r = render_entries(rest);
        let l = entry_line(es.last());
        assert(spaceless(es[es.len() - 1].0) && spaceless(es[es.len() - 1].1));
        assert forall|j: int| 0 <= j < l.len() implies l[j] != '\n' by {
            if j < es.last().0.len() {
                assert(!is_white_space(es.last().0[j]));
            } else if j > es.last().0.len() {
                assert(l[j] == es.last().1[j - es.last().0.len() - 1]);
                assert(!is_white_space(es.last().1[j - es.last().0.len() - 1]));
            }
        }
        lemma_split_lines_append_line(r, l);
        assert((r + l + seq!['\n']).drop_last() =~= r + l);
        let lines = rest.map_values(|e: (Seq<char>, Seq<char>)| entry_line(e));
        assert(Seq::<char>::empty() + l =~= l);
        assert(es.map_values(|e: (Seq<char>, Seq<char>)| entry_line(e)) =~= lines.push(l));
        assert(lines.push(Seq::<char>::empty()).update(lines.len() as int, l) =~= lines.push(l));
    }
}

proof fn lemma_tokens_word(w: Seq<char>)
    requires
        is_word(w),
    ensures
        split_tokens(w) == seq![w],
    decreases w.len(),
{
    assert(!is_white_space(w[w.len() - 1]));
    if w.len() == 1 {
        assert(w.drop_last() =~= Seq::<char>::empty());
        assert(split_tokens(w.drop_last()) =~= Seq::<Seq<char>>::empty());
        assert(seq![w.last()] =~= w);
        assert(Seq::<Seq<char>>::empty().push(w) =~= seq![w]);
    } else {
        let v = w.drop_last();
        assert(!is_white_space(w[w.len() - 2]));
        assert(is_word(v)) by {
            assert forall|j: int| 0 <= j < v.len() implies !is_white_space(#[trigger] v[j]) by {
                assert(v[j] == w[j]);
            }
        }
        lemma_tokens_word(v);
        assert(v.push(w.last()) =~= w);
        assert(seq![v].update(0, v.push(w.last())) =~= seq![w]);
    }
}

proof fn lemma_tokens_space_word(x: Seq<char>, w: Seq<char>)
    requires
        is_word(w),
    ensures
        split_tokens(x + seq![' '] + w) == split_tokens(x).push(w),
    decreases w.len(),
{
    let xs = x + seq![' '];
    assert(xs.drop_last() =~= x);
    assert(is_white_space(' '));
    assert(split_tokens(xs) == split_tokens(x));
    if w.len() == 1 {
        assert((xs + w).drop_last() =~= xs);
        assert((xs + w)[(xs + w).len() - 2] == ' ');
        assert(seq![w.last()] =~= w);
    } else {
        let v = w.drop_last();
        assert(is_word(v)) by {
            assert forall|j: int| 0 <= j < v.len() implies !is_white_space(#[trigger] v[j]) by {
                assert(v[j] == w[j]);
            }
        }
        lemma_tokens_space_word(x, v);
        assert((xs + w).drop_last() =~= xs + v);
        assert(!is_white_space(w[w.len() - 1]));
        assert(!is_white_space(w[w.len() - 2]));
        assert((xs + w)[(xs + w).len() - 2] == w[w.len() - 2]);
        assert(v.push(w.last()) =~= w);
        let t = split_tokens(x).push(v);
        assert(t.update(t.len() - 1, t.last().push(w.last())) =~= split_tokens(x).push(w));
    }
}

proof fn lemma_entry_of_line(e: (Seq<char>, Seq<char>))
    requires
        is_entry(e),
    ensures
        line_entry(entry_line(e)) == Some(e),
{
    lemma_tokens_word(e.0);
    lemma_tokens_space_word(e.0, e.1);
    assert(seq![e.0].push(e.1) =~= seq![e.0, e.1]);
}

proof fn lemma_tokens_space_end(x: Seq<char>)
    ensures
        split_tokens(x + seq![' ']) == split_tokens(x),
{
    assert((x + seq![' ']).drop_last() =~= x);
    assert(is_white_space(' '));
}

/// The line of any entry free of white space reads back as that entry when
/// a sum file can hold it, and as nothing otherwise.
proof fn lemma_entry_of_any_line(e: (Seq<char>, Seq<char>))
    requires
        spaceless(e.0),
        spaceless(e.1),
    ensures
        line_entry(entry_line(e)) == if is_entry(e) {
            Some(e)
        } else {
            None
        },
{
    let empty = Seq::<char>::empty();
    if e.0.len() > 0 && e.1.len() > 0 {
        lemma_tokens_word(e.0);
        lemma_tokens_space_word(e.0, e.1);
        assert(seq![e.0].push(e.1) =~= seq![e.0, e.1]);
    } else if e.1.len() > 0 {
        assert(e.0 =~= empty);
        lemma_tokens_space_word(empty, e.1);
        assert(split_tokens(empty) =~= Seq::<Seq<char>>::empty());
    } else {
        assert(entry_line(e) =~= e.0 + seq![' ']);
        lemma_tokens_space_end(e.0);
        if e.0.len() > 0 {
            lemma_tokens_word(e.0);
        } else {
            assert(e.0 =~= empty);
            assert(split_tokens(empty) =~= Seq::<Seq<char>>::empty());
        }
    }
}

proof fn lemma_lines_entries_of_any_rendered(es: Seq<(Seq<char>, Seq<char>)>)
    requires
        all_spaceless(es),
    ensures
        lines_entries(es.map_values(|e: (Seq<char>, Seq<char>)| entry_line(e))) == es.filter(storable()),
    decreases es.len(),
{
    reveal(Seq::filter);
    if es.len() > 0 {
        let rest = es.drop_last();
        assert(all_spaceless(rest)) by {
            assert forall|i: int| 0 <= i < rest.len() implies spaceless(#[trigger] rest[i].0) && spaceless(rest[i].1) by {
                assert(rest[i] == es[i]);
            }
        }
        lemma_lines_entries_of_any_rendered(rest);
        assert(spaceless(es[es.len() - 1].0) && spaceless(es[es.len() - 1].1));
        lemma_entry_of_any_line(es.last());
        let lines = es.map_values(|e: (Seq<char>, Seq<char>)| entry_line(e));
        assert(lines.drop_last() =~= rest.map_values(|e: (Seq<char>, Seq<char>)| entry_line(e)));
        assert(rest.push(es.last()) =~= es);
        rest.lemma_filter_push(es.last(), storable());
    }
}

/// Reading back a rendered file gives the entries it was rendered from that
/// a sum file can hold, when none holds white space.
proof fn lemma_parse_render_any(es: Seq<(Seq<char>, Seq<char>)>)
    requires
        all_spaceless(es),
    ensures
        sum_entries(render_entries(es)) == es.filter(storable()),
{
    lemma_render_lines(es);
    lemma_lines_entries_of_any_rendered(es);
    let lines = es.map_values(|e: (Seq<char>, Seq<char>)| entry_line(e));
    assert(lines.push(Seq::<char>::empty()).drop_last() =~= lines);
    assert(split_tokens(Seq::<char>::empty()).len() == 0);
}

proof fn lemma_lines_entries_of_rendered(es: Seq<(Seq<char>, Seq<char>)>)
    requires
        all_entries(es),
    ensures
        lines_entries(es.map_values(|e: (Seq<char>, Seq<char>)| entry_line(e))) == es,
    decreases es.len(),
{
    if es.len() > 0 {
        let rest = es.drop_last();
        assert(all_entries(rest)) by {
            assert forall|i: int| 0 <= i < rest.len() implies is_entry(#[trigger] rest[i]) by {
                assert(rest[i] == es[i]);
            }
        }
        lemma_lines_entries_of_rendered(rest);
        assert(is_entry(es[es.len() - 1]));
        lemma_entry_of_line(es.last());
        let lines = es.map_values(|e: (Seq<char>, Seq<char>)| entry_line(e));
        assert(lines.drop_last() =~= rest.map_values(|e: (Seq<char>, Seq<char>)| entry_line(e)));
        assert(rest.push(es.last()) =~= es);
    }
}

/// Reading back a rendered file gives the entries it was rendered from.
pub proof fn lemma_parse_render(es: Seq<(Seq<char>, Seq<char>)>)
    requires
        all_entries(es),
    ensures
        sum_entries(render_entries(es)) == es,
{
    lemma_entries_spaceless(es);
    lemma_render_lines(es);
    lemma_lines_entries_of_rendered(es);
    let lines = es.map_values(|e: (Seq<char>, Seq<char>)| entry_line(e));
    assert(lines.push(Seq::<char>::empty()).drop_last() =~= lines);
    assert(split_tokens(Seq::<char>::empty()).len() == 0);
}

proof fn lemma_lines_entries_are_entries(lines: Seq<Seq<char>>)
    ensures
        all_entries(lines_entries(lines)),
    decreases lines.len(),
{
    if lines.len() > 0 {
        lemma_lines_entries_are_entries(lines.drop_last());
        let l = lines.last();
        lemma_tokens_are_words(l);
        let t = split_tokens(l);
        if t.len() >= 2 {
            assert(t[0].len() > 0 && t[1].len() > 0);
            assert(is_word(t[0]) && is_word(t[1]));
        }
    }
}

proof fn lemma_filter_keeps_entries(es: Seq<(Seq<char>, Seq<char>)>, p: spec_fn((Seq<char>, Seq<char>)) -> bool)
    requires
        all_entries(es),
    ensures
        all_entries(es.filter(p)),
{
    assert forall|i: int| 0 <= i < es.filter(p).len() implies is_entry(#[trigger] es.filter(p)[i]) by {
        assert(es.filter(p).contains(es.filter(p)[i]));
        es.lemma_filter_contains_rev(p, es.filter(p)[i]);
    }
}

/// Each entry after a save is the new entry or an entry the file held.
proof fn lemma_updated_members(existing: Option<Seq<char>>, name: Seq<char>, hash: Seq<char>, i: int)
    requires
        0 <= i < updated_entries(existing, name, hash).len(),
    ensures
        updated_entries(existing, name, hash)[i] == (name, hash) || is_entry(updated_entries(existing, name, hash)[i]),
{
    let prior = prior_entries(existing);
    match existing {
        Some(t) => lemma_lines_entries_are_entries(split_lines(t)),
        None => {},
    }
    let p = not_named(name);
    lemma_filter_keeps_entries(prior, p);
    let kept = prior.filter(p);
    let s = kept.push((name, hash));
    let u = updated_entries(existing, name, hash);
    crate::sort::lemma_sort_member::<SumEntry>(s, i);
    let k = choose|k: int| 0 <= k < s.len() && s[k] == u[i];
    if k < s.len() - 1 {
        assert(s[k] == kept[k]);
        assert(is_entry(kept[k]));
    }
}

proof fn lemma_updated_are_entries(existing: Option<Seq<char>>, name: Seq<char>, hash: Seq<char>)
    requires
        is_entry((name, hash)),
    ensures
        all_entries(updated_entries(existing, name, hash)),
{
    let u = updated_entries(existing, name, hash);
    assert forall|i: int| 0 <= i < u.len() implies is_entry(#[trigger] u[i]) by {
        lemma_updated_members(existing, name, hash, i);
    }
}

proof fn lemma_filter_filter(
    s: Seq<(Seq<char>, Seq<char>)>,
    p: spec_fn((Seq<char>, Seq<char>)) -> bool,
    q: spec_fn((Seq<char>, Seq<char>)) -> bool,
)
    ensures
        s.filter(p).filter(q) == s.filter(|x: (Seq<char>, Seq<char>)| p(x) && q(x)),
    decreases s.len(),
{
    let pq = |x: (Seq<char>, Seq<char>)| p(x) && q(x);
    if s.len() == 0 {
        reveal(Seq::filter);
    } else {
        let t = s.drop_last();
        lemma_filter_filter(t, p, q);
        assert(t.push(s.last()) =~= s);
        t.lemma_filter_push(s.last(), p);
        t.lemma_filter_push(s.last(), pq);
        t.filter(p).lemma_filter_push(s.last(), q);
    }
}

proof fn lemma_filter_none(s: Seq<(Seq<char>, Seq<char>)>, p: spec_fn((Seq<char>, Seq<char>)) -> bool)
    requires
        forall|x: (Seq<char>, Seq<char>)| !#[trigger] p(x),
    ensures
        s.filter(p) == Seq::<(Seq<char>, Seq<char>)>::empty(),
    decreases s.len(),
{
    reveal(Seq::filter);
    if s.len() > 0 {
        lemma_filter_none(s.drop_last(), p);
    }
}

/// In the updated entries, those called `other` are the ones the old file
/// had under that name, or just the new entry when `other` is the name saved.
proof fn lemma_updated_named(existing: Option<Seq<char>>, name: Seq<char>, hash: Seq<char>, other: Seq<char>)
    ensures
        updated_entries(existing, name, hash).filter(named(other)) == if other == name {
            seq![(name, hash)]
        } else {
            prior_entries(existing).filter(named(other))
        },
{
    let prior = prior_entries(existing);
    let p = not_named(name);
    let q = named(other);
    let s = prior.filter(p).push((name, hash));
    let k = (other, hash);
    assert forall|x: (Seq<char>, Seq<char>)| #[trigger] q(x) == crate::sort::same_rank::<SumEntry>(x, k) by {
        if crate::sort::same_rank::<SumEntry>(x, k) {
            crate::order::lemma_text_lt_total(x.0, other);
        } else if q(x) {
            crate::order::lemma_lex_irreflexive(vstd::utf8::encode_utf8(other), crate::order::byte_lt());
        }
    }
    crate::sort::lemma_sort_stable::<SumEntry>(s, k, q);
    prior.filter(p).lemma_filter_push((name, hash), q);
    lemma_filter_filter(prior, p, q);
    let pq = |x: (Seq<char>, Seq<char>)| p(x) && q(x);
    if other == name {
        lemma_filter_none(prior, pq);
        assert(Seq::<(Seq<char>, Seq<char>)>::empty().push((name, hash)) =~= seq![(name, hash)]);
    } else {
        assert(pq =~= q);
    }
}

/// Saving an entry and loading it back gives the hash saved, whenever the
/// name and the hash are single words and the name does not start with `#`.
pub proof fn law_load_after_save(existing: Option<Seq<char>>, name: Seq<char>, hash: Seq<char>)
    requires
        is_entry((name, hash)),
    ensures
        lookup_entry(sum_entries(render_entries(updated_entries(existing, name, hash))), name)
            == Some(hash),
{
    lemma_updated_are_entries(existing, name, hash);
    lemma_parse_render(updated_entries(existing, name, hash));
    lemma_updated_named(existing, name, hash, name);
}

proof fn lemma_updated_spaceless(existing: Option<Seq<char>>, name: Seq<char>, hash: Seq<char>)
    requires
        spaceless(name),
        spaceless(hash),
    ensures
        all_spaceless(updated_entries(existing, name, hash)),
{
    let u = updated_entries(existing, name, hash);
    assert forall|i: int| 0 <= i < u.len() implies spaceless(#[trigger] u[i].0) && spaceless(u[i].1) by {
        lemma_updated_members(existing, name, hash, i);
        if u[i] != (name, hash) {
            assert(is_entry(u[i]));
        }
    }
}

/// Saving an entry leaves what every other name loads unchanged, for any
/// name and hash free of white space.
pub proof fn law_save_keeps_other_entries(
    existing: Option<Seq<char>>,
    name: Seq<char>,
    hash: Seq<char>,
    other: Seq<char>,
)
    requires
        spaceless(name),
        spaceless(hash),
        other != name,
    ensures
        lookup_entry(sum_entries(render_entries(updated_entries(existing, name, hash))), other)
            == lookup_entry(prior_entries(existing), other),
{
    let u = updated_entries(existing, name, hash);
    let prior = prior_entries(existing);
    let q = named(other);
    let ok = storable();
    lemma_updated_spaceless(existing, name, hash);
    lemma_parse_render_any(u);
    lemma_updated_named(existing, name, hash, other);
    lemma_filter_filter(u, ok, q);
    lemma_filter_filter(u, q, ok);
    assert((|x: (Seq<char>, Seq<char>)| ok(x) && q(x)) =~= (|x: (Seq<char>, Seq<char>)| q(x) && ok(x)));
    match existing {
        Some(t) => lemma_lines_entries_are_entries(split_lines(t)),
        None => {},
    }
    lemma_filter_keeps_entries(prior, q);
    let pq = prior.filter(q);
    assert forall|i: int| 0 <= i < pq.len() implies #[trigger] ok(pq[i]) by {
        assert(is_entry(pq[i]));
    }
    lemma_filter_all(pq, ok);
}

/// After a save the file holds exactly one entry under the saved name.
pub proof fn law_save_leaves_one_entry(existing: Option<Seq<char>>, name: Seq<char>, hash: Seq<char>)
    requires
        is_entry((name, hash)),
    ensures
        sum_entries(render_entries(updated_entries(existing, name, hash))).filter(named(name)).len()
            == 1,
{
    lemma_updated_are_entries(existing, name, hash);
    lemma_parse_render(updated_entries(existing, name, hash));
    lemma_updated_named(existing, name, hash, name);
}

/// A saved file lists its entries sorted by name.
pub proof fn law_saved_file_is_sorted(existing: Option<Seq<char>>, name: Seq<char>, hash: Seq<char>)
    requires
        is_entry((name, hash)),
    ensures
        forall|i: int, j: int|
            0 <= i < j < sum_entries(render_entries(updated_entries(existing, name, hash))).len()
                ==> !text_lt(
                #[trigger] sum_entries(render_entries(updated_entries(existing, name, hash)))[j].0,
                #[trigger] sum_entries(render_entries(updated_entries(existing, name, hash)))[i].0,
            ),
{
    let u = updated_entries(existing, name, hash);
    lemma_updated_are_entries(existing, name, hash);
    lemma_parse_render(u);
    crate::sort::lemma_sort_is_ordered::<SumEntry>(
        prior_entries(existing).filter(not_named(name)).push((name, hash)),
    );
}


proof fn lemma_rank_class_is_named(k: (Seq<char>, Seq<char>))
    ensures
        crate::sort::rank_class::<SumEntry>(k) == named(k.0),
{
    let c = crate::sort::rank_class::<SumEntry>(k);
    assert forall|x: (Seq<char>, Seq<char>)| #[trigger] c(x) == named(k.0)(x) by {
        if c(x) {
            crate::order::lemma_text_lt_total(x.0, k.0);
        } else if x.0 == k.0 {
            crate::order::lemma_lex_irreflexive(vstd::utf8::encode_utf8(k.0), crate::order::byte_lt());
        }
    }
    assert(c =~= named(k.0));
}

/// Updated entries are in order, and reading their rendering back gives them.
proof fn lemma_updated_round_trip(existing: Option<Seq<char>>, name: Seq<char>, hash: Seq<char>)
    requires
        is_entry((name, hash)),
    ensures
        prior_entries(Some(render_entries(updated_entries(existing, name, hash)))) == updated_entries(
            existing,
            name,
            hash,
        ),
        crate::sort::is_ordered::<SumEntry>(updated_entries(existing, name, hash)),
{
    lemma_updated_are_entries(existing, name, hash);
    lemma_parse_render(updated_entries(existing, name, hash));
    crate::sort::lemma_sort_is_ordered::<SumEntry>(
        prior_entries(existing).filter(not_named(name)).push((name, hash)),
    );
}

/// The file no longer depends on the order of two saves under different
/// names: saving `a` then `b` writes the same text as saving `b` then `a`.
pub proof fn law_saves_commute(
    existing: Option<Seq<char>>,
    a: Seq<char>,
    ha: Seq<char>,
    b: Seq<char>,
    hb: Seq<char>,
)
    requires
        is_entry((a, ha)),
        is_entry((b, hb)),
        a != b,
    ensures
        render_entries(updated_entries(Some(render_entries(updated_entries(existing, a, ha))), b, hb))
            == render_entries(
            updated_entries(Some(render_entries(updated_entries(existing, b, hb))), a, ha),
        ),
{
    let ta = Some(render_entries(updated_entries(existing, a, ha)));
    let tb = Some(render_entries(updated_entries(existing, b, hb)));
    lemma_updated_round_trip(existing, a, ha);
    lemma_updated_round_trip(existing, b, hb);
    lemma_updated_round_trip(ta, b, hb);
    lemma_updated_round_trip(tb, a, ha);
    let uab = updated_entries(ta, b, hb);
    let uba = updated_entries(tb, a, ha);
    assert forall|k: (Seq<char>, Seq<char>)| uab.filter(crate::sort::rank_class::<SumEntry>(k)) == uba.filter(
        crate::sort::rank_class::<SumEntry>(k),
    ) by {
        lemma_rank_class_is_named(k);
        lemma_updated_named(ta, b, hb, k.0);
        lemma_updated_named(tb, a, ha, k.0);
        lemma_updated_named(existing, a, ha, k.0);
        lemma_updated_named(existing, b, hb, k.0);
    }
    crate::sort::lemma_ordered_equal::<SumEntry>(uab, uba);
}

/// Saving the same entry twice writes the same text as saving it once.
pub proof fn law_save_is_idempotent(existing: Option<Seq<char>>, name: Seq<char>, hash: Seq<char>)
    requires
        is_entry((name, hash)),
    ensures
        render_entries(updated_entries(Some(render_entries(updated_entries(existing, name, hash))), name, hash))
            == render_entries(updated_entries(existing, name, hash)),
{
    let t = Some(render_entries(updated_entries(existing, name, hash)));
    lemma_updated_round_trip(existing, name, hash);
    lemma_updated_round_trip(t, name, hash);
    let u1 = updated_entries(existing, name, hash);
    let u2 = updated_entries(t, name, hash);
    assert forall|k: (Seq<char>, Seq<char>)| u2.filter(crate::sort::rank_class::<SumEntry>(k)) == u1.filter(
        crate::sort::rank_class::<SumEntry>(k),
    ) by {
        lemma_rank_class_is_named(k);
        lemma_updated_named(t, name, hash, k.0);
        lemma_updated_named(existing, name, hash, k.0);
    }
    crate::sort::lemma_ordered_equal::<SumEntry>(u2, u1);
}

} // verus!
