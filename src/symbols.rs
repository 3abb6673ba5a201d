use vstd::prelude::*;
use crate::price::{all_digits, digit_of, digits_value, is_digit, lemma_digits_value_prefix_monotone};
use crate::text::{chars_of, string_of, to_upper, trim_of, trim_str, upper_of};

verus! {

/// Whether two strings hold the same characters.
pub fn str_eq(a: &str, b: &str) -> (r: bool)
    ensures
        r == (a@ == b@),
{
    let x = a.as_bytes();
    let y = b.as_bytes();
    proof {
        vstd::utf8::encode_utf8_decode_utf8(a@);
        vstd::utf8::encode_utf8_decode_utf8(b@);
    }
    if x.len() != y.len() {
        return false;
    }
    let mut i: usize = 0;
    while i < x.len()
        invariant
            x@.len() == y@.len(),
            x@ == vstd::utf8::encode_utf8(a@),
            y@ == vstd::utf8::encode_utf8(b@),
            forall|k: int| 0 <= k < i ==> x@[k] == y@[k],
        decreases x@.len() - i,
    {
        if x[i] != y[i] {
            return false;
        }
        i += 1;
    }
    assert(x@ =~= y@);
    true
}

/// The map that a list of (name, id) entries denotes: a later entry for a
/// name replaces an earlier one.
pub open spec fn map_of(es: Seq<(Seq<char>, u64)>) -> Map<Seq<char>, u64>
    decreases es.len(),
{
    if es.len() == 0 {
        Map::empty()
    } else {
        map_of(es.drop_last()).insert(es.last().0, es.last().1)
    }
}

proof fn lemma_map_of_prefix(es: Seq<(Seq<char>, u64)>, j: int, k: Seq<char>)
    requires
        0 <= j <= es.len(),
        forall|i: int| j <= i < es.len() ==> (#[trigger] es[i]).0 != k,
    ensures
        map_of(es).contains_key(k) == map_of(es.take(j)).contains_key(k),
        map_of(es).contains_key(k) ==> map_of(es)[k] == map_of(es.take(j))[k],
    decreases es.len() - j,
{
    if j < es.len() {
        let t = es.drop_last();
        assert(t.take(j) =~= es.take(j));
        assert forall|i: int| j <= i < t.len() implies (#[trigger] t[i]).0 != k by {
            assert(t[i] == es[i]);
        }
        lemma_map_of_prefix(t, j, k);
        assert(es.last() == es[es.len() - 1]);
    } else {
        assert(es.take(j) =~= es);
    }
}

/// Symbol names mapped to their symbol ids.
pub struct SymbolMap {
    entries: Vec<(String, u64)>,
}

impl View for SymbolMap {
    type V = Map<Seq<char>, u64>;

    closed spec fn view(&self) -> Map<Seq<char>, u64> {
        map_of(self.entry_views())
    }
}

impl SymbolMap {
    closed spec fn entry_views(&self) -> Seq<(Seq<char>, u64)> {
        self.entries@.map_values(|e: (String, u64)| (e.0@, e.1))
    }

    /// An empty map.
    pub fn new() -> (r: SymbolMap)
        ensures
            r@ == Map::<Seq<char>, u64>::empty(),
    {
        let r = SymbolMap { entries: Vec::new() };
        assert(r.entry_views() =~= Seq::<(Seq<char>, u64)>::empty());
        r
    }

    /// The id of `name`, if the map holds it.
    pub fn get(&self, name: &str) -> (r: Option<&u64>)
        ensures
            r is Some <==> self@.contains_key(name@),
            r is Some ==> *r->Some_0 == self@[name@],
    {
        let ghost es = self.entry_views();
        let mut j: usize = self.entries.len();
        while j > 0
            invariant
                j <= self.entries@.len(),
                es == self.entry_views(),
                forall|i: int| j <= i < es.len() ==> (#[trigger] es[i]).0 != name@,
            decreases j,
        {
            let e = &self.entries[j - 1];
            if str_eq(e.0.as_str(), name) {
                proof {
                    assert(es[j - 1] == (e.0@, e.1));
                    lemma_map_of_prefix(es, j as int, name@);
                    let t = es.take(j as int);
                    assert(t.drop_last() =~= es.take(j - 1));
                    assert(t.last() == es[j - 1]);
                }
                return Some(&e.1);
            }
            proof {
                assert(es[j - 1] == (e.0@, e.1));
            }
            j -= 1;
        }
        proof {
            lemma_map_of_prefix(es, 0, name@);
            assert(es.take(0) =~= Seq::<(Seq<char>, u64)>::empty());
        }
        None
    }

    /// Whether the map holds `name`.
    pub fn contains_key(&self, name: &str) -> (r: bool)
        ensures
            r == self@.contains_key(name@),
    {
        self.get(name).is_some()
    }

    /// Maps `name` to `id`; returns the id it had before, if any.
    pub fn insert(&mut self, name: String, id: u64) -> (r: Option<u64>)
        ensures
            final(self)@ == old(self)@.insert(name@, id),
            r is Some <==> old(self)@.contains_key(name@),
            r is Some ==> r->Some_0 == old(self)@[name@],
    {
        let previous = match self.get(name.as_str()) {
            Some(v) => Some(*v),
            None => None,
        };
        let ghost before = self.entry_views();
        let ghost key = name@;
        self.entries.push((name, id));
        assert(self.entry_views() =~= before.push((key, id)));
        assert(self.entry_views().drop_last() =~= before);
        previous
    }
}

/// Why the symbol tables were rejected.
#[derive(Debug, Clone, Copy, PartialEq, Eq, Structural)]
pub enum SymbolsError {
    /// A non-blank line of the canonical table is not `<id>\t<name>`.
    InvalidFormat { line: usize },
    /// The id of a line of the canonical table is not a `u64`.
    InvalidSymbolId { line: usize },
    /// A name occurs twice in the canonical table.
    DuplicateSymbol { line: usize },
    /// The subscription list names no symbol.
    EmptySubscription,
    /// The subscribed name at this index is not in the canonical table.
    UnknownSymbol { index: usize },
}

pub open spec fn views(l: Seq<String>) -> Seq<Seq<char>> {
    l.map_values(|s: String| s@)
}

/// `i` is the first index of `names` that `m` does not hold.
pub open spec fn first_unknown(names: Seq<Seq<char>>, m: Map<Seq<char>, u64>, i: int) -> bool {
    &&& 0 <= i < names.len()
    &&& !m.contains_key(names[i])
    &&& forall|j: int| 0 <= j < i ==> m.contains_key(#[trigger] names[j])
}

pub open spec fn all_known(names: Seq<Seq<char>>, m: Map<Seq<char>, u64>) -> bool {
    forall|j: int| 0 <= j < names.len() ==> m.contains_key(#[trigger] names[j])
}

/// Checks that every subscribed name is in the canonical map; the error
/// gives the first one that is not.
pub fn validate_symbols(subscribe_list: &[String], symbol_map: &SymbolMap) -> (r: Result<
    (),
    SymbolsError,
>)
    ensures
        r is Ok <==> all_known(views(subscribe_list@), symbol_map@),
        r is Err ==> exists|i: int|
            first_unknown(views(subscribe_list@), symbol_map@, i) && r == Err::<(), SymbolsError>(
                SymbolsError::UnknownSymbol { index: i as usize },
            ),
{
    let ghost names = views(subscribe_list@);
    let mut i: usize = 0;
    while i < subscribe_list.len()
        invariant
            names == views(subscribe_list@),
            forall|j: int| 0 <= j < i ==> symbol_map@.contains_key(#[trigger] names[j]),
        decreases subscribe_list@.len() - i,
    {
        if !symbol_map.contains_key(subscribe_list[i].as_str()) {
            assert(first_unknown(names, symbol_map@, i as int));
            return Err(SymbolsError::UnknownSymbol { index: i });
        }
        i += 1;
    }
    Ok(())
}

/// The map from each subscribed name to its canonical id; the error gives
/// the first subscribed name that the canonical map does not hold.
pub fn create_symbol_id_map(subscribe_list: &[String], symbol_map: &SymbolMap) -> (r: Result<
    SymbolMap,
    SymbolsError,
>)
    ensures
        r is Ok <==> all_known(views(subscribe_list@), symbol_map@),
        r is Err ==> exists|i: int|
            first_unknown(views(subscribe_list@), symbol_map@, i) && r is Err && r->Err_0
                == (SymbolsError::UnknownSymbol { index: i as usize }),
        r is Ok ==> forall|k: Seq<char>|
            r->Ok_0@.contains_key(k) <==> views(subscribe_list@).contains(k),
        r is Ok ==> forall|k: Seq<char>|
            #[trigger] r->Ok_0@.contains_key(k) ==> r->Ok_0@[k] == symbol_map@[k],
{
    let ghost names = views(subscribe_list@);
    let mut result = SymbolMap::new();
    let mut i: usize = 0;
    while i < subscribe_list.len()
        invariant
            names == views(subscribe_list@),
            i <= subscribe_list@.len(),
            forall|j: int| 0 <= j < i ==> symbol_map@.contains_key(#[trigger] names[j]),
            forall|k: Seq<char>|
                result@.contains_key(k) <==> exists|j: int| 0 <= j < i && names[j] == k,
            forall|k: Seq<char>| #[trigger] result@.contains_key(k) ==> result@[k] == symbol_map@[k],
        decreases subscribe_list@.len() - i,
    {
        let name = &subscribe_list[i];
        match symbol_map.get(name.as_str()) {
            None => {
                assert(first_unknown(names, symbol_map@, i as int));
                return Err(SymbolsError::UnknownSymbol { index: i });
            },
            Some(id) => {
                let ghost before = result@;
                result.insert(name.clone(), *id);
                assert forall|k: Seq<char>|
                    result@.contains_key(k) <==> exists|j: int| 0 <= j < i + 1 && names[j] == k by {
                    if k == names[i as int] {
                        assert(names[i as int] == k);
                    } else if result@.contains_key(k) {
                        assert(before.contains_key(k));
                    } else {
                        assert(!before.contains_key(k));
                    }
                }
            },
        }
        i += 1;
    }
    assert(i == names.len());
    assert forall|k: Seq<char>| result@.contains_key(k) <==> names.contains(k) by {
        if result@.contains_key(k) {
            let j = choose|j: int| 0 <= j < i && names[j] == k;
            assert(names[j] == k);
        }
        if names.contains(k) {
            let j = choose|j: int| 0 <= j < names.len() && names[j] == k;
            assert(0 <= j < i && names[j] == k);
        }
    }
    Ok(result)
}

/// The pieces of `s` between newline characters, in order; a text without
/// newlines is one piece.
pub open spec fn lines_of(s: Seq<char>) -> Seq<Seq<char>>
    decreases s.len(),
{
    if s.len() == 0 {
        seq![Seq::empty()]
    } else if s.last() == '\n' {
        lines_of(s.drop_last()).push(Seq::empty())
    } else {
        let p = lines_of(s.drop_last());
        p.update(p.len() - 1, p.last().push(s.last()))
    }
}

/// Splits `content` at each newline character.
pub fn split_lines(content: &str) -> (r: Vec<String>)
    ensures
        views(r@) == lines_of(content@),
{
    let c = chars_of(content);
    let n = c.len();
    let mut out: Vec<String> = Vec::new();
    let mut start: usize = 0;
    let mut i: usize = 0;
    assert(c@.take(0) =~= Seq::<char>::empty());
    assert(views(out@) =~= Seq::<Seq<char>>::empty());
    assert(c@.subrange(0, 0) =~= Seq::<char>::empty());
    while i < n
        invariant
            n == c@.len(),
            start <= i <= n,
            lines_of(c@.take(i as int)) == views(out@).push(c@.subrange(start as int, i as int)),
        decreases n - i,
    {
        let ghost t = c@.take(i + 1);
        assert(t.drop_last() =~= c@.take(i as int));
        assert(t.last() == c@[i as int]);
        if c[i] == '\n' {
            let ghost before = views(out@);
            let piece = string_of(&c, start, i);
            out.push(piece);
            assert(views(out@) =~= before.push(c@.subrange(start as int, i as int)));
            start = i + 1;
            assert(c@.subrange(start as int, start as int) =~= Seq::<char>::empty());
        } else {
            let ghost p = views(out@).push(c@.subrange(start as int, i as int));
            assert(c@.subrange(start as int, i + 1) =~= c@.subrange(start as int, i as int).push(
                c@[i as int],
            ));
            assert(p.update(p.len() - 1, p.last().push(c@[i as int])) =~= views(out@).push(
                c@.subrange(start as int, i + 1),
            ));
        }
        i += 1;
    }
    assert(c@.take(n as int) =~= c@);
    let ghost before = views(out@);
    let last = string_of(&c, start, n);
    out.push(last);
    assert(views(out@) =~= before.push(c@.subrange(start as int, n as int)));
    out
}

/// The subscribed names that the lines `ls` give: each line trimmed, blank
/// lines dropped, upper-cased.
pub open spec fn names_of(ls: Seq<Seq<char>>) -> Seq<Seq<char>>
    decreases ls.len(),
{
    if ls.len() == 0 {
        Seq::empty()
    } else if trim_of(ls.last()).len() == 0 {
        names_of(ls.drop_last())
    } else {
        names_of(ls.drop_last()).push(upper_of(trim_of(ls.last())))
    }
}

/// The subscription list that a text gives, one name per line.
pub fn parse_subscribe_list(content: &str) -> (r: Result<Vec<String>, SymbolsError>)
    ensures
        names_of(lines_of(content@)).len() == 0 ==> r == Err::<Vec<String>, SymbolsError>(
            SymbolsError::EmptySubscription,
        ),
        names_of(lines_of(content@)).len() > 0 ==> r is Ok && views(r->Ok_0@) == names_of(
            lines_of(content@),
        ),
{
    let lines = split_lines(content);
    let ghost ls = views(lines@);
    let mut out: Vec<String> = Vec::new();
    let mut i: usize = 0;
    assert(ls.take(0) =~= Seq::<Seq<char>>::empty());
    assert(views(out@) =~= Seq::<Seq<char>>::empty());
    while i < lines.len()
        invariant
            ls == views(lines@),
            i <= lines@.len(),
            views(out@) == names_of(ls.take(i as int)),
        decreases lines@.len() - i,
    {
        let ghost t = ls.take(i + 1);
        assert(t.drop_last() =~= ls.take(i as int));
        assert(t.last() == lines@[i as int]@);
        let trimmed = trim_str(lines[i].as_str());
        if !trimmed.is_empty() {
            let ghost before = views(out@);
            let name = to_upper(trimmed);
            out.push(name);
            assert(views(out@) =~= before.push(name@));
        }
        i += 1;
    }
    assert(ls.take(lines@.len() as int) =~= ls);
    if out.len() == 0 {
        return Err(SymbolsError::EmptySubscription);
    }
    Ok(out)
}

/// What `str::parse::<u64>` accepts: an optional `+`, then one or more
/// decimal digits whose value fits in a `u64`.
pub open spec fn u64_of(s: Seq<char>) -> Option<u64> {
    let d = if s.len() > 0 && s[0] == '+' {
        s.drop_first()
    } else {
        s
    };
    if d.len() == 0 || !all_digits(d) || digits_value(d) > u64::MAX {
        None
    } else {
        Some(digits_value(d) as u64)
    }
}

/// Parses the characters `c[from..to]` as a decimal `u64`.
pub fn parse_u64_chars(c: &Vec<char>, from: usize, to: usize) -> (r: Option<u64>)
    requires
        from <= to <= c@.len(),
    ensures
        r == u64_of(c@.subrange(from as int, to as int)),
{
    let ghost s = c@.subrange(from as int, to as int);
    let mut k = from;
    if from < to && c[from] == '+' {
        k = from + 1;
    }
    let ghost d = c@.subrange(k as int, to as int);
    assert(s.len() > 0 && s[0] == '+' ==> d =~= s.drop_first());
    assert(!(s.len() > 0 && s[0] == '+') ==> d =~= s);
    if k == to {
        return None;
    }
    let mut j: usize = k;
    while j < to
        invariant
            k <= j <= to <= c@.len(),
            d == c@.subrange(k as int, to as int),
            s == c@.subrange(from as int, to as int),
            d == (if s.len() > 0 && s[0] == '+' {
                s.drop_first()
            } else {
                s
            }),
            forall|i: int| 0 <= i < j - k ==> is_digit(#[trigger] d[i]),
        decreases to - j,
    {
        if !('0' <= c[j] && c[j] <= '9') {
            assert(!is_digit(d[j - k]));
            return None;
        }
        j += 1;
    }
    assert(all_digits(d));
    let mut v: u64 = 0;
    let mut i: usize = k;
    assert(d.subrange(0, 0) =~= Seq::<char>::empty());
    while i < to
        invariant
            k <= i <= to <= c@.len(),
            d == c@.subrange(k as int, to as int),
            s == c@.subrange(from as int, to as int),
            d == (if s.len() > 0 && s[0] == '+' {
                s.drop_first()
            } else {
                s
            }),
            all_digits(d),
            v == digits_value(d.subrange(0, i - k)),
        decreases to - i,
    {
        let ghost p = d.subrange(0, i - k + 1);
        assert(p.drop_last() =~= d.subrange(0, i - k));
        assert(p.last() == d[i - k]);
        assert(is_digit(d[i - k]));
        let digit = (c[i] as u32 - '0' as u32) as u64;
        assert(digit == digit_of(d[i - k]));
        let next = match v.checked_mul(10) {
            Some(x) => x.checked_add(digit),
            None => None,
        };
        match next {
            Some(x) => {
                v = x;
            },
            None => {
                proof {
                    lemma_digits_value_prefix_monotone(d, i - k + 1, d.len() as int);
                    assert(d.subrange(0, d.len() as int) =~= d);
                }
                return None;
            },
        }
        i += 1;
    }
    assert(d.subrange(0, to - k) =~= d);
    Some(v)
}

/// `t` holds exactly one tab, at position `k`.
pub open spec fn single_tab_at(t: Seq<char>, k: int) -> bool {
    &&& 0 <= k < t.len()
    &&& t[k] == '\t'
    &&& forall|j: int| 0 <= j < t.len() && j != k ==> #[trigger] t[j] != '\t'
}

/// The canonical table that the lines `ls` give: each non-blank trimmed line
/// is an id and a name separated by one tab; names are upper-cased and may
/// not repeat. Errors carry the 1-based number of the offending line.
pub open spec fn table_of(ls: Seq<Seq<char>>) -> Result<Map<Seq<char>, u64>, SymbolsError>
    decreases ls.len(),
{
    if ls.len() == 0 {
        Ok(Map::empty())
    } else {
        match table_of(ls.drop_last()) {
            Err(e) => Err(e),
            Ok(m) => {
                let t = trim_of(ls.last());
                let line = ls.len() as usize;
                if t.len() == 0 {
                    Ok(m)
                } else if !exists|k: int| single_tab_at(t, k) {
                    Err(SymbolsError::InvalidFormat { line })
                } else {
                    let k = choose|k: int| single_tab_at(t, k);
                    match u64_of(t.take(k)) {
                        None => Err(SymbolsError::InvalidSymbolId { line }),
                        Some(id) => {
                            let name = upper_of(t.skip(k + 1));
                            if m.contains_key(name) {
                                Err(SymbolsError::DuplicateSymbol { line })
                            } else {
                                Ok(m.insert(name, id))
                            }
                        },
                    }
                }
            },
        }
    }
}

proof fn lemma_table_error_persists(ls: Seq<Seq<char>>, j: int)
    requires
        0 <= j <= ls.len(),
        table_of(ls.take(j)) is Err,
    ensures
        table_of(ls) == table_of(ls.take(j)),
    decreases ls.len() - j,
{
    if j < ls.len() {
        let t = ls.drop_last();
        assert(t.take(j) =~= ls.take(j));
        lemma_table_error_persists(t, j);
    } else {
        assert(ls.take(j) =~= ls);
    }
}

/// The canonical symbol table that a text of `<id>\t<name>` lines gives.
pub fn parse_symbols_tsv(content: &str) -> (r: Result<SymbolMap, SymbolsError>)
    ensures
        r is Ok <==> table_of(lines_of(content@)) is Ok,
        r is Ok ==> r->Ok_0@ == table_of(lines_of(content@))->Ok_0,
        r is Err ==> table_of(lines_of(content@)) == Err::<Map<Seq<char>, u64>, SymbolsError>(
            r->Err_0,
        ),
{
    let lines = split_lines(content);
    let ghost ls = views(lines@);
    assert(ls.len() == lines@.len());
    let mut map = SymbolMap::new();
    let mut i: usize = 0;
    assert(ls.take(0) =~= Seq::<Seq<char>>::empty());
    while i < lines.len()
        invariant
            ls == views(lines@),
            ls == lines_of(content@),
            ls.len() == lines@.len(),
            i <= lines@.len(),
            table_of(ls.take(i as int)) == Ok::<Map<Seq<char>, u64>, SymbolsError>(map@),
        decreases lines@.len() - i,
    {
        let ghost pre = ls.take(i + 1);
        assert(pre.drop_last() =~= ls.take(i as int));
        assert(pre.last() == lines@[i as int]@);
        assert(pre.len() == i + 1);
        let line_no = i + 1;
        let trimmed = trim_str(lines[i].as_str());
        if !trimmed.is_empty() {
            let tc = chars_of(trimmed);
            let n = tc.len();
            let mut k: usize = 0;
            while k < n && tc[k] != '\t'
                invariant
                    k <= n == tc@.len(),
                    forall|j: int| 0 <= j < k ==> #[trigger] tc@[j] != '\t',
                decreases n - k,
            {
                k += 1;
            }
            assert(trim_of(pre.last()) == tc@);
            assert(table_of(pre.drop_last()) == Ok::<Map<Seq<char>, u64>, SymbolsError>(map@));
            if k == n {
                assert(!exists|x: int| single_tab_at(tc@, x));
                assert(table_of(pre) == Err::<Map<Seq<char>, u64>, SymbolsError>(
                    SymbolsError::InvalidFormat { line: (i + 1) as usize },
                ));
                proof {
                    lemma_table_error_persists(ls, i + 1);
                }
                return Err(SymbolsError::InvalidFormat { line: line_no });
            }
            let mut q: usize = k + 1;
            while q < n
                invariant
                    k < q <= n == tc@.len(),
                    tc@[k as int] == '\t',
                    i < lines@.len(),
                    ls.len() == lines@.len(),
                    ls == lines_of(content@),
                    pre == ls.take(i + 1),
                    pre.len() == i + 1,
                    line_no == i + 1,
                    table_of(pre.drop_last()) == Ok::<Map<Seq<char>, u64>, SymbolsError>(map@),
                    trim_of(pre.last()) == tc@,
                    forall|j: int| 0 <= j < k ==> #[trigger] tc@[j] != '\t',
                    forall|j: int| k < j < q ==> #[trigger] tc@[j] != '\t',
                decreases n - q,
            {
                if tc[q] == '\t' {
                    assert(!exists|x: int| single_tab_at(tc@, x)) by {
                        if exists|x: int| single_tab_at(tc@, x) {
                            let x = choose|x: int| single_tab_at(tc@, x);
                            if x != k {
                                assert(tc@[k as int] != '\t');
                            } else {
                                assert(tc@[q as int] != '\t');
                            }
                        }
                    }
                    proof {
                    lemma_table_error_persists(ls, i + 1);
                }
                return Err(SymbolsError::InvalidFormat { line: line_no });
                }
                q += 1;
            }
            assert(single_tab_at(tc@, k as int));
            assert(forall|x: int| single_tab_at(tc@, x) ==> x == k);
            assert(tc@.subrange(0, k as int) =~= tc@.take(k as int));
            let id = match parse_u64_chars(&tc, 0, k) {
                None => {
                    proof {
                    lemma_table_error_persists(ls, i + 1);
                }
                return Err(SymbolsError::InvalidSymbolId { line: line_no });
                },
                Some(v) => v,
            };
            let raw = string_of(&tc, k + 1, n);
            assert(raw@ =~= tc@.skip(k + 1));
            let name = to_upper(raw.as_str());
            let previous = map.insert(name, id);
            if previous.is_some() {
                proof {
                    lemma_table_error_persists(ls, i + 1);
                }
                return Err(SymbolsError::DuplicateSymbol { line: line_no });
            }
        }
        i += 1;
    }
    assert(ls.take(lines@.len() as int) =~= ls);
    Ok(map)
}

} // verus!
