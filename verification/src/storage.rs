//! The account table: names mapped to integer balances, and the
//! line-oriented text format it is persisted in.

use vstd::prelude::*;
use vstd::string::StringExecFns;

use crate::num::dec_int;
use crate::num::i64_to_string;
use crate::num::is_digit;
use crate::num::lemma_dec_int_chars;
use crate::num::lemma_parse_of_dec;
use crate::num::parse_i64_or_zero;
use crate::num::parse_or_zero;
use crate::text::is_ws;
use crate::text::lemma_split_head;
use crate::text::lemma_split_no_sep;
use crate::text::split_on;
use crate::text::split_str;
use crate::text::trim_back;
use crate::text::trim_front;
use crate::text::trim_str;
use crate::text::trimmed;
use crate::text::views_of;

verus! {

/// An association list from account names to balances, viewed as a map
/// (see [`View::view`]).  Names are unique; a name that is absent means
/// "unknown account", which is distinct from an account with balance 0.
pub struct Storage {
    accounts: Vec<(String, i64)>,
}

/// The map an association list denotes: later entries win, though the
/// well-formed lists kept by [`Storage`] never repeat a name.
pub open spec fn assoc_map(ps: Seq<(Seq<char>, int)>) -> Map<Seq<char>, int>
    decreases ps.len(),
{
    if ps.len() == 0 {
        Map::empty()
    } else {
        assoc_map(ps.drop_last()).insert(ps.last().0, ps.last().1)
    }
}

/// No two entries share a name.
pub open spec fn distinct_names(ps: Seq<(Seq<char>, int)>) -> bool {
    forall|i: int, j: int| 0 <= i < j < ps.len() ==> ps[i].0 != ps[j].0
}

impl View for Storage {
    type V = Map<Seq<char>, int>;

    open spec fn view(&self) -> Map<Seq<char>, int> {
        assoc_map(self.pairs())
    }
}

impl Storage {
    /// The stored entries, in order, as (name, balance) pairs of plain
    /// mathematical values.
    pub closed spec fn pairs(&self) -> Seq<(Seq<char>, int)> {
        self.accounts@.map_values(|p: (String, i64)| (p.0@, p.1 as int))
    }

    /// Well-formed: account names are unique.
    pub open spec fn wf(&self) -> bool {
        distinct_names(self.pairs())
    }

    /// An empty table: no accounts at all.
    pub fn new() -> (r: Storage)
        ensures
            r.wf(),
            r@ == Map::<Seq<char>, int>::empty(),
    {
        let st = Storage { accounts: Vec::new() };
        proof {
            assert(st.pairs() =~= Seq::<(Seq<char>, int)>::empty());
        }
        st
    }

    /// The position of `name` in the list, if it is present.
    fn find(&self, name: &String) -> (r: Option<usize>)
        ensures
            match r {
                Some(i) => i < self.pairs().len() && self.pairs()[i as int].0 == name@,
                None => forall|i: int|
                    0 <= i < self.pairs().len() ==> self.pairs()[i].0 != name@,
            },
    {
        let n = self.accounts.len();
        let mut i: usize = 0;
        while i < n
            invariant
                i <= n,
                n == self.accounts@.len(),
                forall|k: int| 0 <= k < i ==> self.pairs()[k].0 != name@,
            decreases n - i,
        {
            if self.accounts[i].0 == *name {
                return Some(i);
            }
            i += 1;
        }
        None
    }

    /// Creates `name` with balance 0 and reports that balance; signals a
    /// duplicate (`None`) and leaves the table unchanged if `name` exists.
    pub fn add_user(&mut self, name: String) -> (r: Option<i64>)
        requires
            old(self).wf(),
        ensures
            final(self).wf(),
            old(self)@.contains_key(name@) ==> r is None && final(self)@ == old(self)@,
            !old(self)@.contains_key(name@) ==> r == Some(0i64) && final(self)@
                == old(self)@.insert(name@, 0),
    {
        proof {
            lemma_assoc_contains(self.pairs(), name@);
        }
        match self.find(&name) {
            Some(_) => None,
            None => {
                let ghost ps = self.pairs();
                self.accounts.push((name, 0));
                proof {
                    assert(self.pairs() =~= ps.push((name@, 0)));
                    assert(self.pairs().drop_last() =~= ps);
                }
                Some(0)
            },
        }
    }

    /// Deletes `name` and returns the balance it held; signals not-found
    /// (`None`) and leaves the table unchanged if `name` is absent.
    pub fn remove_user(&mut self, name: &String) -> (r: Option<i64>)
        requires
            old(self).wf(),
        ensures
            final(self).wf(),
            old(self)@.contains_key(name@) ==> (r matches Some(b) && b as int
                == old(self)@[name@]) && final(self)@ == old(self)@.remove(name@),
            !old(self)@.contains_key(name@) ==> r is None && final(self)@ == old(self)@,
    {
        proof {
            lemma_assoc_contains(self.pairs(), name@);
        }
        match self.find(name) {
            Some(i) => {
                let ghost ps = self.pairs();
                proof {
                    lemma_assoc_index(ps, i as int);
                    lemma_assoc_remove(ps, i as int);
                }
                let entry = self.accounts.remove(i);
                proof {
                    assert(self.pairs() =~= ps.remove(i as int));
                }
                Some(entry.1)
            },
            None => None,
        }
    }

    /// A pure read of `name`'s balance; `None` means the account is unknown.
    pub fn get_balance(&self, name: &String) -> (r: Option<i64>)
        requires
            self.wf(),
        ensures
            match r {
                Some(b) => self@.contains_key(name@) && b as int == self@[name@],
                None => !self@.contains_key(name@),
            },
    {
        proof {
            lemma_assoc_contains(self.pairs(), name@);
        }
        match self.find(name) {
            Some(i) => {
                proof {
                    lemma_assoc_index(self.pairs(), i as int);
                }
                Some(self.accounts[i].1)
            },
            None => None,
        }
    }

    /// Adds `amount` to the existing balance of `name`; an unknown name is
    /// an error and leaves the table unchanged.  `amount` may be negative,
    /// as for the callers that feed amounts straight through.
    pub fn deposit(&mut self, name: &String, amount: i64) -> (r: Result<(), String>)
        requires
            old(self).wf(),
            old(self)@.contains_key(name@) ==> i64::MIN <= old(self)@[name@] + amount
                <= i64::MAX,
        ensures
            final(self).wf(),
            old(self)@.contains_key(name@) ==> r is Ok && final(self)@
                == old(self)@.insert(name@, old(self)@[name@] + amount),
            !old(self)@.contains_key(name@) ==> (r matches Err(e) && e@
                == "User is not found"@) && final(self)@ == old(self)@,
    {
        proof {
            lemma_assoc_contains(self.pairs(), name@);
        }
        match self.find(name) {
            Some(i) => {
                let ghost ps = self.pairs();
                proof {
                    lemma_assoc_index(ps, i as int);
                }
                let nb = self.accounts[i].1 + amount;
                let nn = self.accounts[i].0.clone();
                self.accounts.set(i, (nn, nb));
                proof {
                    assert(self.pairs() =~= ps.update(i as int, (ps[i as int].0, nb as int)));
                    lemma_assoc_update(ps, i as int, nb as int);
                }
                Ok(())
            },
            None => Err(String::from_str("User is not found")),
        }
    }

    /// Subtracts `amount` from `name`'s balance when the balance covers it;
    /// a withdrawal of the exact balance is allowed.  An unknown name or a
    /// balance below `amount` is an error and leaves the table unchanged.
    pub fn withdraw(&mut self, name: &String, amount: i64) -> (r: Result<(), String>)
        requires
            old(self).wf(),
            old(self)@.contains_key(name@) && old(self)@[name@] >= amount
                ==> old(self)@[name@] - amount <= i64::MAX,
        ensures
            final(self).wf(),
            old(self)@.contains_key(name@) && old(self)@[name@] >= amount ==> r is Ok
                && final(self)@ == old(self)@.insert(name@, old(self)@[name@] - amount),
            old(self)@.contains_key(name@) && old(self)@[name@] < amount ==> (r matches Err(e)
                && e@ == "Not enough money on balance"@) && final(self)@ == old(self)@,
            !old(self)@.contains_key(name@) ==> (r matches Err(e) && e@
                == "User is not found"@) && final(self)@ == old(self)@,
    {
        proof {
            lemma_assoc_contains(self.pairs(), name@);
        }
        match self.find(name) {
            Some(i) => {
                let ghost ps = self.pairs();
                proof {
                    lemma_assoc_index(ps, i as int);
                }
                let b = self.accounts[i].1;
                if b >= amount {
                    let nb = b - amount;
                    let nn = self.accounts[i].0.clone();
                    self.accounts.set(i, (nn, nb));
                    proof {
                        assert(self.pairs() =~= ps.update(
                            i as int,
                            (ps[i as int].0, nb as int),
                        ));
                        lemma_assoc_update(ps, i as int, nb as int);
                    }
                    Ok(())
                } else {
                    Err(String::from_str("Not enough money on balance"))
                }
            },
            None => Err(String::from_str("User is not found")),
        }
    }

    /// A snapshot of every account as (name, balance) pairs, in the table's
    /// own (unspecified) order.
    pub fn get_all(&self) -> (r: Vec<(String, i64)>)
        requires
            self.wf(),
        ensures
            r@.len() == self.pairs().len(),
            forall|i: int| 0 <= i < r@.len() ==> (#[trigger] r@[i]).0@ == self.pairs()[i].0
                && r@[i].1 as int == self.pairs()[i].1,
            forall|i: int| 0 <= i < r@.len() ==> self@.contains_key((#[trigger] r@[i]).0@)
                && self@[r@[i].0@] == r@[i].1 as int,
            forall|k: Seq<char>| self@.contains_key(k) ==> exists|i: int|
                0 <= i < r@.len() && (#[trigger] r@[i]).0@ == k,
    {
        let n = self.accounts.len();
        let mut r: Vec<(String, i64)> = Vec::new();
        let mut i: usize = 0;
        while i < n
            invariant
                i <= n,
                n == self.accounts@.len(),
                r@.len() == i,
                forall|k: int| 0 <= k < i ==> (#[trigger] r@[k]).0@ == self.pairs()[k].0
                    && r@[k].1 as int == self.pairs()[k].1,
            decreases n - i,
        {
            let nn = self.accounts[i].0.clone();
            r.push((nn, self.accounts[i].1));
            i += 1;
        }
        proof {
            lemma_assoc_full(self.pairs());
            assert forall|k: Seq<char>| self@.contains_key(k) implies exists|j: int|
                0 <= j < r@.len() && (#[trigger] r@[j]).0@ == k by {
                let i = choose|i: int| 0 <= i < self.pairs().len()
                    && (#[trigger] self.pairs()[i]).0 == k;
                assert(r@[i].0@ == k);
            }
        }
        r
    }
}

/// What one line of the persisted file contributes: `Some` of a name and a
/// balance when the trimmed line splits on `,` into exactly two fields, the
/// second parsed as a balance; `None` for any other line, which the loader
/// skips.
pub open spec fn record_of_line(line: Seq<char>) -> Option<(Seq<char>, int)> {
    let parts = split_on(trimmed(line), ',');
    if parts.len() == 2 {
        Some((parts[0], parse_or_zero(parts[1])))
    } else {
        None
    }
}

/// One load step: a valid record is created if absent and its balance then
/// deposited, so repeated names accumulate; a malformed line changes
/// nothing.
pub open spec fn apply_line(m: Map<Seq<char>, int>, line: Seq<char>) -> Map<Seq<char>, int> {
    match record_of_line(line) {
        Some(r) => m.insert(
            r.0,
            (if m.contains_key(r.0) {
                m[r.0]
            } else {
                0
            }) + r.1,
        ),
        None => m,
    }
}

/// The load fold: lines applied in order, starting from `m`.
pub open spec fn ledger_from(m: Map<Seq<char>, int>, lines: Seq<Seq<char>>) -> Map<
    Seq<char>,
    int,
>
    decreases lines.len(),
{
    if lines.len() == 0 {
        m
    } else {
        ledger_from(apply_line(m, lines.first()), lines.drop_first())
    }
}

/// The ledger a whole file text denotes.
pub open spec fn ledger_of_text(text: Seq<char>) -> Map<Seq<char>, int> {
    ledger_from(Map::empty(), split_on(text, '\n'))
}

pub open spec fn fits_i64(m: Map<Seq<char>, int>) -> bool {
    forall|k: Seq<char>| m.contains_key(k) ==> i64::MIN <= #[trigger] m[k] <= i64::MAX
}

/// Every balance stays within `i64` after every line of loading `text`.
/// Loading adds balances in the machine type, so a text whose running sums
/// leave the range is outside this library's domain.
pub open spec fn text_fits(text: Seq<char>) -> bool {
    forall|i: int| 0 <= i <= split_on(text, '\n').len() ==> fits_i64(
        #[trigger] ledger_from(Map::empty(), split_on(text, '\n').take(i)),
    )
}

/// One rendered line: the name, a comma, the balance and a line break.
pub open spec fn line_of(p: (Seq<char>, int)) -> Seq<char> {
    p.0 + seq![','] + dec_int(p.1) + seq!['\n']
}

/// The whole rendered file: each pair's line, in order.
pub open spec fn rendered(ps: Seq<(Seq<char>, int)>) -> Seq<char>
    decreases ps.len(),
{
    if ps.len() == 0 {
        Seq::empty()
    } else {
        line_of(ps.first()) + rendered(ps.drop_first())
    }
}

/// The four demo accounts a first run starts from, each at balance 0.
pub open spec fn seed_ledger() -> Map<Seq<char>, int> {
    Map::empty().insert("John"@, 0).insert("Alice"@, 0).insert("Bob"@, 0).insert("Vasya"@, 0)
}

impl Storage {
    /// Builds the ledger a file's text denotes: each line is trimmed and
    /// split on `,`; a line of exactly two fields is applied as
    /// create-then-deposit, and any other line is skipped.
    pub fn parse_lines(text: &str) -> (r: Storage)
        requires
            text_fits(text@),
        ensures
            r.wf(),
            r@ == ledger_of_text(text@),
    {
        let mut st = Storage::new();
        let lines = split_str(text, '\n');
        let ghost lvs = views_of(lines@);
        let n = lines.len();
        let mut li: usize = 0;
        proof {
            assert(lvs.take(0) =~= Seq::<Seq<char>>::empty());
        }
        while li < n
            invariant
                li <= n,
                n == lines@.len(),
                lvs == views_of(lines@),
                lvs == split_on(text@, '\n'),
                text_fits(text@),
                st.wf(),
                st@ == ledger_from(Map::empty(), lvs.take(li as int)),
            decreases n - li,
        {
            let ghost m0 = st@;
            proof {
                assert(lvs.take(li as int + 1) =~= lvs.take(li as int).push(lvs[li as int]));
                lemma_ledger_from_push(Map::empty(), lvs.take(li as int), lvs[li as int]);
                assert(fits_i64(ledger_from(Map::empty(), lvs.take(li as int + 1))));
                assert(lvs[li as int] == lines@[li as int]@);
            }
            let line = &lines[li];
            let t = trim_str(line.as_str());
            let parts = split_str(t, ',');
            if parts.len() == 2 {
                let name = parts[0].clone();
                let bal = parse_i64_or_zero(parts[1].as_str());
                let ghost m1 = if m0.contains_key(name@) {
                    m0
                } else {
                    m0.insert(name@, 0)
                };
                proof {
                    assert(views_of(parts@)[0] == parts@[0]@);
                    assert(views_of(parts@)[1] == parts@[1]@);
                    assert(record_of_line(lvs[li as int]) == Some((name@, bal as int)));
                    assert(apply_line(m0, lvs[li as int]) == m0.insert(
                        name@,
                        (if m0.contains_key(name@) {
                            m0[name@]
                        } else {
                            0
                        }) + bal,
                    ));
                    assert(m1.contains_key(name@));
                    assert(m1[name@] == if m0.contains_key(name@) {
                        m0[name@]
                    } else {
                        0
                    });
                    assert(apply_line(m0, lvs[li as int]).contains_key(name@));
                    assert(apply_line(m0, lvs[li as int])[name@] == m1[name@] + bal);
                }
                let _ = st.add_user(name.clone());
                proof {
                    assert(st@ == m1);
                }
                let _ = st.deposit(&name, bal);
                proof {
                    assert(st@ =~= apply_line(m0, lvs[li as int]));
                }
            } else {
                proof {
                    assert(views_of(parts@).len() == parts@.len());
                    assert(record_of_line(lvs[li as int]) is None);
                }
            }
            li += 1;
        }
        proof {
            assert(lvs.take(n as int) =~= lvs);
        }
        st
    }

    /// Renders every account as a `name,balance` line, in the table's own
    /// order, each line ended by a line break.
    pub fn to_lines(&self) -> (r: String)
        ensures
            r@ == rendered(self.pairs()),
    {
        let mut out = String::new();
        let n = self.accounts.len();
        let mut i: usize = 0;
        proof {
            assert(self.pairs().take(0) =~= Seq::<(Seq<char>, int)>::empty());
            assert(out@ =~= rendered(self.pairs().take(0)));
        }
        while i < n
            invariant
                i <= n,
                n == self.accounts@.len(),
                out@ == rendered(self.pairs().take(i as int)),
            decreases n - i,
        {
            let bs = i64_to_string(self.accounts[i].1);
            out.append(self.accounts[i].0.as_str());
            out.append(",");
            out.append(bs.as_str());
            out.append("\n");
            proof {
                reveal_strlit(",");
                reveal_strlit("\n");
                lemma_rendered_push(self.pairs().take(i as int), self.pairs()[i as int]);
                assert(self.pairs().take(i as int + 1) =~= self.pairs().take(i as int).push(
                    self.pairs()[i as int],
                ));
                assert(out@ =~= rendered(self.pairs().take(i as int)) + line_of(
                    self.pairs()[i as int],
                ));
            }
            i += 1;
        }
        proof {
            assert(self.pairs().take(n as int) =~= self.pairs());
        }
        out
    }

    /// The default seed set a first run starts from, when no persisted
    /// file exists yet.
    pub fn seeded() -> (r: Storage)
        ensures
            r.wf(),
            r@ == seed_ledger(),
    {
        let mut st = Storage::new();
        proof {
            reveal_strlit("John");
            reveal_strlit("Alice");
            reveal_strlit("Bob");
            reveal_strlit("Vasya");
            assert("John"@.len() == 4 && "Alice"@.len() == 5 && "Bob"@.len() == 3
                && "Vasya"@.len() == 5);
            assert("Alice"@[0] == 'A' && "Vasya"@[0] == 'V');
        }
        let _ = st.add_user(String::from_str("John"));
        let _ = st.add_user(String::from_str("Alice"));
        let _ = st.add_user(String::from_str("Bob"));
        let _ = st.add_user(String::from_str("Vasya"));
        proof {
            assert(st@ =~= seed_ledger());
        }
        st
    }
}

/// Pushing a line onto the fold applies it last.
proof fn lemma_ledger_from_push(m: Map<Seq<char>, int>, lines: Seq<Seq<char>>, x: Seq<char>)
    ensures
        ledger_from(m, lines.push(x)) == apply_line(ledger_from(m, lines), x),
    decreases lines.len(),
{
    if lines.len() == 0 {
        assert(lines.push(x).first() == x);
        assert(lines.push(x).drop_first() =~= Seq::<Seq<char>>::empty());
        assert(ledger_from(apply_line(m, x), Seq::<Seq<char>>::empty()) == apply_line(m, x));
    } else {
        assert(lines.push(x).first() == lines.first());
        assert(lines.push(x).drop_first() =~= lines.drop_first().push(x));
        lemma_ledger_from_push(apply_line(m, lines.first()), lines.drop_first(), x);
    }
}

/// Pushing a pair onto the rendering appends its line.
proof fn lemma_rendered_push(ps: Seq<(Seq<char>, int)>, x: (Seq<char>, int))
    ensures
        rendered(ps.push(x)) == rendered(ps) + line_of(x),
    decreases ps.len(),
{
    if ps.len() == 0 {
        assert(ps.push(x).first() == x);
        assert(ps.push(x).drop_first() =~= Seq::<(Seq<char>, int)>::empty());
        assert(rendered(Seq::<(Seq<char>, int)>::empty()) =~= Seq::<char>::empty());
        assert(rendered(ps.push(x)) =~= rendered(ps) + line_of(x));
    } else {
        assert(ps.push(x).first() == ps.first());
        assert(ps.push(x).drop_first() =~= ps.drop_first().push(x));
        lemma_rendered_push(ps.drop_first(), x);
        assert(rendered(ps.push(x)) =~= rendered(ps) + line_of(x));
    }
}

/// A name the text format stores faithfully: no comma (the field
/// separator), no line break (the record separator), and no leading
/// whitespace (which trimming would strip on the way back in).
pub open spec fn name_clean(n: Seq<char>) -> bool {
    (forall|i: int| 0 <= i < n.len() ==> n[i] != ',' && n[i] != '\n') && (n.len() > 0
        ==> !is_ws(n[0]))
}

/// The body of a pair's rendered line, without the final line break.
spec fn body_of(p: (Seq<char>, int)) -> Seq<char> {
    p.0 + seq![','] + dec_int(p.1)
}

/// The load fold over rendered pairs, written out pair by pair.
spec fn accum(m: Map<Seq<char>, int>, ps: Seq<(Seq<char>, int)>) -> Map<Seq<char>, int>
    decreases ps.len(),
{
    if ps.len() == 0 {
        m
    } else {
        accum(
            m.insert(
                ps.first().0,
                (if m.contains_key(ps.first().0) {
                    m[ps.first().0]
                } else {
                    0
                }) + ps.first().1,
            ),
            ps.drop_first(),
        )
    }
}

/// A clean pair's rendered line reads back as exactly that record.
proof fn lemma_line_record(p: (Seq<char>, int))
    requires
        name_clean(p.0),
        i64::MIN <= p.1 <= i64::MAX,
    ensures
        body_of(p).len() > 0,
        forall|i: int| 0 <= i < body_of(p).len() ==> #[trigger] body_of(p)[i] != '\n',
        record_of_line(body_of(p)) == Some((p.0, p.1)),
{
    let ds = dec_int(p.1);
    let body = body_of(p);
    lemma_dec_int_chars(p.1);
    assert(forall|c: char| is_digit(c) ==> !is_ws(c) && c != ',' && c != '\n');
    assert forall|i: int| 0 <= i < body.len() implies #[trigger] body[i] != '\n' by {
        if i < p.0.len() {
            assert(body[i] == p.0[i]);
        } else if i == p.0.len() {
            assert(body[i] == ',');
        } else {
            assert(body[i] == ds[i - p.0.len() - 1]);
        }
    }
    if p.0.len() > 0 {
        assert(body[0] == p.0[0]);
    } else {
        assert(body[0] == ',');
    }
    assert(!is_ws(body[0]));
    assert(trim_front(body) == body);
    assert(body.last() == ds[ds.len() - 1]);
    assert(is_digit(body.last()));
    assert(trim_back(body) == body);
    assert(trimmed(body) == body);
    assert forall|i: int| 0 <= i < ds.len() implies ds[i] != ',' by {
        assert(is_digit(ds[i]) || ds[i] == '-');
    }
    lemma_split_no_sep(ds, ',');
    assert forall|i: int| 0 <= i < p.0.len() implies p.0[i] != ',' by {}
    assert(body =~= p.0 + seq![','] + ds);
    lemma_split_head(p.0, ds, ',');
    let parts = split_on(body, ',');
    assert(parts =~= seq![p.0, ds]);
    assert(parts.len() == 2);
    lemma_parse_of_dec(p.1);
    assert(record_of_line(body) == Some((p.0, p.1)));
}

/// The empty line at the end of a rendered file is skipped by the loader.
proof fn lemma_empty_line()
    ensures
        record_of_line(Seq::<char>::empty()) is None,
{
    lemma_split_no_sep(Seq::<char>::empty(), ',');
    assert(trimmed(Seq::<char>::empty()) =~= Seq::<char>::empty());
    assert(split_on(Seq::<char>::empty(), ',').len() == 1);
}

/// The line bodies of rendered pairs.
spec fn bodies(ps: Seq<(Seq<char>, int)>) -> Seq<Seq<char>> {
    ps.map_values(|p: (Seq<char>, int)| body_of(p))
}

/// A rendered file splits back into its line bodies plus one final empty
/// field after the last line break.
proof fn lemma_split_rendered(ps: Seq<(Seq<char>, int)>)
    requires
        forall|i: int| 0 <= i < ps.len() ==> name_clean((#[trigger] ps[i]).0),
        forall|i: int| 0 <= i < ps.len() ==> i64::MIN <= (#[trigger] ps[i]).1 <= i64::MAX,
    ensures
        split_on(rendered(ps), '\n') == bodies(ps) + seq![Seq::<char>::empty()],
    decreases ps.len(),
{
    if ps.len() == 0 {
        lemma_split_no_sep(Seq::<char>::empty(), '\n');
        assert(rendered(ps) =~= Seq::<char>::empty());
        assert(split_on(rendered(ps), '\n') =~= bodies(ps) + seq![Seq::<char>::empty()]);
    } else {
        let p0 = ps.first();
        lemma_line_record(p0);
        assert(rendered(ps) =~= body_of(p0) + seq!['\n'] + rendered(ps.drop_first()));
        lemma_split_head(body_of(p0), rendered(ps.drop_first()), '\n');
        assert forall|i: int| 0 <= i < ps.drop_first().len() implies name_clean(
            (#[trigger] ps.drop_first()[i]).0,
        ) && i64::MIN <= ps.drop_first()[i].1 <= i64::MAX by {
            assert(ps.drop_first()[i] == ps[i + 1]);
        }
        lemma_split_rendered(ps.drop_first());
        assert(bodies(ps.drop_first()) =~= bodies(ps).drop_first());
        assert(split_on(rendered(ps), '\n') =~= bodies(ps) + seq![Seq::<char>::empty()]);
    }
}

/// Loading the first `i` rendered lines is the fold over the first `i`
/// pairs.
proof fn lemma_fold_bodies(m: Map<Seq<char>, int>, ps: Seq<(Seq<char>, int)>, i: int)
    requires
        0 <= i <= ps.len(),
        forall|j: int| 0 <= j < ps.len() ==> name_clean((#[trigger] ps[j]).0),
        forall|j: int| 0 <= j < ps.len() ==> i64::MIN <= (#[trigger] ps[j]).1 <= i64::MAX,
    ensures
        ledger_from(m, bodies(ps).take(i)) == accum(m, ps.take(i)),
    decreases i,
{
    if i == 0 {
        assert(bodies(ps).take(0) =~= Seq::<Seq<char>>::empty());
        assert(ps.take(0) =~= Seq::<(Seq<char>, int)>::empty());
    } else {
        let p0 = ps.first();
        lemma_line_record(p0);
        let bs = bodies(ps).take(i);
        assert(bs.first() == body_of(p0));
        let m1 = m.insert(
            p0.0,
            (if m.contains_key(p0.0) {
                m[p0.0]
            } else {
                0
            }) + p0.1,
        );
        assert(apply_line(m, body_of(p0)) == m1);
        assert forall|j: int| 0 <= j < ps.drop_first().len() implies name_clean(
            (#[trigger] ps.drop_first()[j]).0,
        ) && i64::MIN <= ps.drop_first()[j].1 <= i64::MAX by {
            assert(ps.drop_first()[j] == ps[j + 1]);
        }
        lemma_fold_bodies(m1, ps.drop_first(), i - 1);
        assert(bs.drop_first() =~= bodies(ps.drop_first()).take(i - 1));
        assert(ps.take(i).first() == p0);
        assert(ps.take(i).drop_first() =~= ps.drop_first().take(i - 1));
        assert(ledger_from(m, bs) == ledger_from(m1, bs.drop_first()));
        assert(accum(m, ps.take(i)) == accum(m1, ps.drop_first().take(i - 1)));
    }
}

/// With distinct names none of which `m` holds, the fold writes each pair
/// once and touches nothing else.
proof fn lemma_accum_distinct(m: Map<Seq<char>, int>, ps: Seq<(Seq<char>, int)>)
    requires
        distinct_names(ps),
        forall|i: int| 0 <= i < ps.len() ==> !m.contains_key((#[trigger] ps[i]).0),
    ensures
        forall|k: Seq<char>| #[trigger] m.contains_key(k) ==> accum(m, ps).contains_key(k)
            && accum(m, ps)[k] == m[k],
        forall|i: int| 0 <= i < ps.len() ==> accum(m, ps).contains_key((#[trigger] ps[i]).0)
            && accum(m, ps)[ps[i].0] == ps[i].1,
        forall|k: Seq<char>| #[trigger] accum(m, ps).contains_key(k) ==> m.contains_key(k)
            || exists|i: int| 0 <= i < ps.len() && (#[trigger] ps[i]).0 == k,
    decreases ps.len(),
{
    if ps.len() > 0 {
        let p0 = ps.first();
        let m1 = m.insert(p0.0, 0 + p0.1);
        assert(accum(m, ps) == accum(m1, ps.drop_first()));
        assert(ps[0] == p0);
        assert(!m.contains_key(p0.0));
        assert forall|i: int| 0 <= i < ps.drop_first().len() implies !m1.contains_key(
            (#[trigger] ps.drop_first()[i]).0,
        ) by {
            assert(ps.drop_first()[i] == ps[i + 1]);
            assert(ps[0].0 != ps[i + 1].0);
        }
        assert(distinct_names(ps.drop_first())) by {
            assert forall|i: int, j: int| 0 <= i < j < ps.drop_first().len() implies
                (#[trigger] ps.drop_first()[i]).0 != (#[trigger] ps.drop_first()[j]).0 by {
                assert(ps.drop_first()[i] == ps[i + 1]);
                assert(ps.drop_first()[j] == ps[j + 1]);
            }
        }
        lemma_accum_distinct(m1, ps.drop_first());
        assert forall|k: Seq<char>| #[trigger] m.contains_key(k) implies accum(
            m,
            ps,
        ).contains_key(k) && accum(m, ps)[k] == m[k] by {
            assert(k != p0.0);
            assert(m1.contains_key(k) && m1[k] == m[k]);
        }
        assert forall|i: int| 0 <= i < ps.len() implies accum(m, ps).contains_key(
            (#[trigger] ps[i]).0,
        ) && accum(m, ps)[ps[i].0] == ps[i].1 by {
            if i == 0 {
                assert(m1.contains_key(p0.0) && m1[p0.0] == p0.1);
            } else {
                assert(ps.drop_first()[i - 1] == ps[i]);
            }
        }
        assert forall|k: Seq<char>| accum(m, ps).contains_key(k) implies m.contains_key(k)
            || exists|i: int| 0 <= i < ps.len() && (#[trigger] ps[i]).0 == k by {
            if !m.contains_key(k) {
                if k == p0.0 {
                    assert(ps[0].0 == k);
                } else {
                    assert(m1.contains_key(k) ==> k == p0.0 || m.contains_key(k));
                    let i = choose|i: int| 0 <= i < ps.drop_first().len()
                        && (#[trigger] ps.drop_first()[i]).0 == k;
                    assert(ps[i + 1].0 == k);
                }
            }
        }
    }
}

/// The save/load round trip: rendering a well-formed ledger whose names
/// the format stores faithfully, then loading that text, reproduces
/// exactly the same accounts and balances; the rendered text also keeps
/// every running balance within `i64`, so the loader accepts it.
pub proof fn law_save_load_round_trip(s: Storage)
    requires
        s.wf(),
        forall|i: int| 0 <= i < s.pairs().len() ==> name_clean((#[trigger] s.pairs()[i]).0),
    ensures
        text_fits(rendered(s.pairs())),
        ledger_of_text(rendered(s.pairs())) == s@,
{
    let ps = s.pairs();
    assert forall|i: int| 0 <= i < ps.len() implies i64::MIN <= (#[trigger] ps[i]).1
        <= i64::MAX by {
        assert(ps[i].1 == s.accounts@[i].1 as int);
    }
    let e = Map::<Seq<char>, int>::empty();
    lemma_split_rendered(ps);
    let sp = split_on(rendered(ps), '\n');
    assert(sp.len() == ps.len() + 1);
    lemma_accum_distinct(e, ps);
    // the whole text loads back as the pair-by-pair fold
    lemma_fold_bodies(e, ps, ps.len() as int);
    assert(bodies(ps).take(ps.len() as int) =~= bodies(ps));
    assert(ps.take(ps.len() as int) =~= ps);
    assert(sp =~= bodies(ps).push(Seq::<char>::empty()));
    lemma_ledger_from_push(e, bodies(ps), Seq::<char>::empty());
    lemma_empty_line();
    assert(ledger_of_text(rendered(ps)) == accum(e, ps));
    // the fold is the association map itself
    lemma_assoc_full(ps);
    assert forall|k: Seq<char>| accum(e, ps).contains_key(k) implies assoc_map(
        ps,
    ).contains_key(k) && accum(e, ps)[k] == assoc_map(ps)[k] by {
        let i = choose|i: int| 0 <= i < ps.len() && (#[trigger] ps[i]).0 == k;
        lemma_assoc_index(ps, i);
    }
    assert forall|k: Seq<char>| assoc_map(ps).contains_key(k) implies accum(
        e,
        ps,
    ).contains_key(k) by {
        lemma_assoc_contains(ps, k);
        let i = choose|i: int| 0 <= i < ps.len() && (#[trigger] ps[i]).0 == k;
    }
    assert(accum(e, ps) =~= assoc_map(ps));
    // every prefix of the load stays within bounds
    assert forall|i: int| 0 <= i <= sp.len() implies fits_i64(
        #[trigger] ledger_from(e, sp.take(i)),
    ) by {
        if i <= ps.len() {
            assert(sp.take(i) =~= bodies(ps).take(i));
            lemma_fold_bodies(e, ps, i);
            assert(distinct_names(ps.take(i)));
            assert forall|j: int| 0 <= j < ps.take(i).len() implies !e.contains_key(
                (#[trigger] ps.take(i)[j]).0,
            ) by {}
            lemma_accum_distinct(e, ps.take(i));
            assert forall|k: Seq<char>| ledger_from(e, sp.take(i)).contains_key(k) implies
                i64::MIN <= #[trigger] ledger_from(e, sp.take(i))[k] <= i64::MAX by {
                let j = choose|j: int| 0 <= j < ps.take(i).len() && (#[trigger] ps.take(
                    i,
                )[j]).0 == k;
                assert(ps.take(i)[j] == ps[j]);
            }
        } else {
            assert(sp.take(i) =~= sp);
            assert(ledger_from(e, sp) == accum(e, ps));
        }
    }
}

/// A key is in the denoted map exactly when some entry carries it.
proof fn lemma_assoc_contains(ps: Seq<(Seq<char>, int)>, k: Seq<char>)
    ensures
        assoc_map(ps).contains_key(k) <==> exists|i: int| 0 <= i < ps.len()
            && (#[trigger] ps[i]).0 == k,
    decreases ps.len(),
{
    if ps.len() > 0 {
        lemma_assoc_contains(ps.drop_last(), k);
        if ps.last().0 == k {
            assert(ps[ps.len() - 1].0 == k);
        } else if assoc_map(ps).contains_key(k) {
            let i = choose|i: int| 0 <= i < ps.drop_last().len()
                && (#[trigger] ps.drop_last()[i]).0 == k;
            assert(ps[i].0 == k);
        } else {
            assert forall|i: int| 0 <= i < ps.len() implies (#[trigger] ps[i]).0 != k by {
                if i < ps.len() - 1 {
                    assert(ps.drop_last()[i].0 != k);
                }
            }
        }
    }
}

/// With distinct names, entry `i` gives the value the denoted map holds.
proof fn lemma_assoc_index(ps: Seq<(Seq<char>, int)>, i: int)
    requires
        distinct_names(ps),
        0 <= i < ps.len(),
    ensures
        assoc_map(ps).contains_key(ps[i].0),
        assoc_map(ps)[ps[i].0] == ps[i].1,
    decreases ps.len(),
{
    if i < ps.len() - 1 {
        assert(distinct_names(ps.drop_last()));
        lemma_assoc_index(ps.drop_last(), i);
        assert(ps.drop_last()[i] == ps[i]);
        assert(ps[i].0 != ps.last().0);
    }
}

/// Removing entry `i` removes exactly its key from the denoted map.
proof fn lemma_assoc_remove(ps: Seq<(Seq<char>, int)>, i: int)
    requires
        distinct_names(ps),
        0 <= i < ps.len(),
    ensures
        distinct_names(ps.remove(i)),
        assoc_map(ps.remove(i)) == assoc_map(ps).remove(ps[i].0),
    decreases ps.len(),
{
    assert(distinct_names(ps.remove(i)));
    if i == ps.len() - 1 {
        assert(ps.remove(i) =~= ps.drop_last());
        lemma_assoc_contains(ps.drop_last(), ps.last().0);
        assert forall|j: int| 0 <= j < ps.drop_last().len() implies
            (#[trigger] ps.drop_last()[j]).0 != ps.last().0 by {
            assert(ps[j].0 != ps[ps.len() - 1].0);
        }
        assert(!assoc_map(ps.drop_last()).contains_key(ps.last().0));
        assert(assoc_map(ps.remove(i)) =~= assoc_map(ps).remove(ps[i].0));
    } else {
        assert(distinct_names(ps.drop_last()));
        lemma_assoc_remove(ps.drop_last(), i);
        assert(ps.remove(i).drop_last() =~= ps.drop_last().remove(i));
        assert(ps.remove(i).last() == ps.last());
        assert(ps[i].0 != ps.last().0);
        assert(assoc_map(ps.remove(i)) =~= assoc_map(ps).remove(ps[i].0));
    }
}

/// Updating entry `i`'s value updates exactly its key in the denoted map.
proof fn lemma_assoc_update(ps: Seq<(Seq<char>, int)>, i: int, v: int)
    requires
        distinct_names(ps),
        0 <= i < ps.len(),
    ensures
        distinct_names(ps.update(i, (ps[i].0, v))),
        assoc_map(ps.update(i, (ps[i].0, v))) == assoc_map(ps).insert(ps[i].0, v),
    decreases ps.len(),
{
    let qs = ps.update(i, (ps[i].0, v));
    assert(distinct_names(qs));
    if i == ps.len() - 1 {
        assert(qs.drop_last() =~= ps.drop_last());
        assert(assoc_map(qs) =~= assoc_map(ps).insert(ps[i].0, v));
    } else {
        assert(distinct_names(ps.drop_last()));
        lemma_assoc_update(ps.drop_last(), i, v);
        assert(qs.drop_last() =~= ps.drop_last().update(i, (ps[i].0, v)));
        assert(qs.last() == ps.last());
        assert(ps[i].0 != ps.last().0);
        assert(assoc_map(qs) =~= assoc_map(ps).insert(ps[i].0, v));
    }
}

/// With distinct names the denoted map holds exactly the listed pairs.
proof fn lemma_assoc_full(ps: Seq<(Seq<char>, int)>)
    requires
        distinct_names(ps),
    ensures
        forall|i: int| 0 <= i < ps.len() ==> assoc_map(ps).contains_key((#[trigger] ps[i]).0)
            && assoc_map(ps)[ps[i].0] == ps[i].1,
        forall|k: Seq<char>| assoc_map(ps).contains_key(k) ==> exists|i: int|
            0 <= i < ps.len() && (#[trigger] ps[i]).0 == k,
{
    assert forall|i: int| 0 <= i < ps.len() implies assoc_map(ps).contains_key(
        (#[trigger] ps[i]).0,
    ) && assoc_map(ps)[ps[i].0] == ps[i].1 by {
        lemma_assoc_index(ps, i);
    }
    assert forall|k: Seq<char>| assoc_map(ps).contains_key(k) implies exists|i: int|
        0 <= i < ps.len() && (#[trigger] ps[i]).0 == k by {
        lemma_assoc_contains(ps, k);
    }
}

} // verus!
