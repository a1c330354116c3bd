//! The machine enumerator: builds the primitive instruction alphabet for
//! `(N, K)`, combines it into every instruction row, combines the rows into
//! every transition table, and admits exactly the tables that contain a
//! halting transition.

use vstd::arithmetic::div_mod::lemma_div_denominator;
use vstd::arithmetic::div_mod::lemma_div_pos_is_pos;
use vstd::arithmetic::div_mod::lemma_fundamental_div_mod;
use vstd::arithmetic::div_mod::lemma_fundamental_div_mod_converse;
use vstd::arithmetic::div_mod::lemma_mod_bound;
use vstd::arithmetic::div_mod::lemma_multiply_divide_lt;
use vstd::arithmetic::power::pow;
use vstd::prelude::*;

use crate::combinations::combos;
use crate::combinations::generate_combinations;
use crate::combinations::lemma_combos_complete;
use crate::combinations::lemma_combos_elems;
use crate::combinations::lemma_combos_len;
use crate::combinations::lemma_combos_map;
use crate::machine::has_halt;
use crate::machine::instruction_wf;
use crate::machine::table_wf;
use crate::machine::Card;
use crate::machine::Cards;
use crate::machine::Direction;
use crate::machine::Instructions;
use crate::machine::State;
use crate::machine::Symbol;

verus! {

/// The instruction at position `idx` of the primitive alphabet for a
/// machine with `k` symbols: the symbol index cycles fastest, then the
/// direction, then the next state, `Halt` first.
pub open spec fn alphabet_entry(idx: int, k: nat) -> Instructions {
    Instructions {
        write: Symbol((idx % (k as int)) as u8),
        direction: if (idx / (k as int)) % 2 == 0 {
            Direction::Left
        } else {
            Direction::Right
        },
        state: if idx / (2 * (k as int)) == 0 {
            State::Halt
        } else {
            State::Card((idx / (2 * (k as int)) - 1) as usize)
        },
    }
}

/// The full primitive instruction alphabet for `(n, k)`: the Cartesian
/// product of next-states (`Halt` and the `n` cards), the two directions,
/// and the `k` symbols — `(n + 1) * 2 * k` instructions in all.
pub open spec fn alphabet(n: nat, k: nat) -> Seq<Instructions> {
    Seq::new((n + 1) * 2 * k, |idx: int| alphabet_entry(idx, k))
}

/// Every instruction row that can be built from the alphabet: the `k`-th
/// Cartesian power of the alphabet.
pub open spec fn all_rows(n: nat, k: nat) -> Seq<Seq<Instructions>> {
    combos(alphabet(n, k), k)
}

/// Every transition table that can be built from the rows: the `n`-th
/// Cartesian power of the row family, before the admission filter.
pub open spec fn all_tables(n: nat, k: nat) -> Seq<Seq<Seq<Instructions>>> {
    combos(all_rows(n, k), n)
}

/// The admission filter: keeps, in order, exactly the tables that contain
/// at least one halting transition.
pub open spec fn admitted_tables(tables: Seq<Seq<Seq<Instructions>>>) -> Seq<
    Seq<Seq<Instructions>>,
>
    decreases tables.len(),
{
    if tables.len() == 0 {
        Seq::empty()
    } else {
        let rest = admitted_tables(tables.drop_last());
        if has_halt(tables.last()) {
            rest.push(tables.last())
        } else {
            rest
        }
    }
}

/// The enumerator's final output for `(n, k)`: the filtered table family.
pub open spec fn enumerated(n: nat, k: nat) -> Seq<Seq<Seq<Instructions>>> {
    admitted_tables(all_tables(n, k))
}

/// A table is admitted exactly when it occurs among the candidates and has
/// a halting transition; admission never invents a table.
pub proof fn lemma_admitted_tables(tables: Seq<Seq<Seq<Instructions>>>, t: Seq<Seq<Instructions>>)
    ensures
        admitted_tables(tables).contains(t) <==> tables.contains(t) && has_halt(t),
    decreases tables.len(),
{
    if tables.len() > 0 {
        let dl = tables.drop_last();
        lemma_admitted_tables(dl, t);
        let rest = admitted_tables(dl);
        if admitted_tables(tables).contains(t) {
            if has_halt(tables.last()) && t == tables.last() {
                assert(tables[tables.len() - 1] == t);
            } else {
                let m = choose|m: int|
                    0 <= m < admitted_tables(tables).len() && admitted_tables(tables)[m] == t;
                assert(rest[m] == t);
                assert(rest.contains(t));
                let w = choose|w: int| 0 <= w < dl.len() && dl[w] == t;
                assert(tables[w] == t);
            }
        }
        if tables.contains(t) && has_halt(t) {
            let w = choose|w: int| 0 <= w < tables.len() && tables[w] == t;
            if w == tables.len() - 1 {
                assert(admitted_tables(tables)[admitted_tables(tables).len() - 1] == t);
            } else {
                assert(dl[w] == t);
                assert(dl.contains(t));
                let m = choose|m: int| 0 <= m < rest.len() && rest[m] == t;
                assert(admitted_tables(tables)[m] == t);
            }
        }
    }
}

/// The alphabet for `(n, k)` has exactly `(n + 1) * 2 * k` entries, each of
/// them valid for a machine with `n` states and `k` symbols.
pub proof fn lemma_alphabet(n: nat, k: nat)
    requires
        1 <= k <= 256,
    ensures
        alphabet(n, k).len() == (n + 1) * 2 * k,
        forall|m: int|
            0 <= m < alphabet(n, k).len() ==> instruction_wf(#[trigger] alphabet(n, k)[m], n, k),
{
    assert forall|m: int|
        0 <= m < alphabet(n, k).len() implies instruction_wf(#[trigger] alphabet(n, k)[m], n, k) by {
        lemma_mod_bound(m, k as int);
        lemma_div_pos_is_pos(m, 2 * (k as int));
        assert(m < (n + 1) * (2 * (k as int))) by (nonlinear_arith)
            requires
                m < (n + 1) * 2 * k,
        ;
        lemma_multiply_divide_lt(m, 2 * (k as int), (n + 1) as int);
    }
}

/// Holds all the generated machines.
#[derive(Debug)]
pub struct Machines(pub Vec<Cards>);

impl View for Machines {
    type V = Seq<Seq<Seq<Instructions>>>;

    open spec fn view(&self) -> Seq<Seq<Seq<Instructions>>> {
        self.0@.map_values(|cs: Cards| cs@)
    }
}

impl Machines {
    /// Builds the primitive instruction alphabet for `(num_cards,
    /// num_symbols)`, in the fixed order of `alphabet`.
    pub fn generate_instructions(num_cards: usize, num_symbols: usize) -> (r: Vec<Instructions>)
        requires
            1 <= num_symbols <= 256,
            ((num_cards + 1) as int) * 2 * (num_symbols as int) <= usize::MAX as int,
        ensures
            r@ == alphabet(num_cards as nat, num_symbols as nat),
    {
        proof {
            assert(((num_cards + 1) as int) * 2 <= ((num_cards + 1) as int) * 2 * (
            num_symbols as int)) by (nonlinear_arith)
                requires
                    num_symbols >= 1,
            ;
        }
        let total = (num_cards + 1) * 2 * num_symbols;
        let mut res: Vec<Instructions> = Vec::new();
        let mut idx: usize = 0;
        while idx < total
            invariant
                1 <= num_symbols <= 256,
                total == ((num_cards + 1) as int) * 2 * (num_symbols as int),
                idx <= total,
                res@.len() == idx,
                forall|m: int|
                    0 <= m < idx ==> res@[m] == alphabet(
                        num_cards as nat,
                        num_symbols as nat,
                    )[m],
            decreases total - idx,
        {
            let sym = idx % num_symbols;
            let dir_i = (idx / num_symbols) % 2;
            let st_i = idx / (2 * num_symbols);
            let write = Symbol(sym as u8);
            let direction = if dir_i == 0 {
                Direction::Left
            } else {
                Direction::Right
            };
            let state = if st_i == 0 {
                State::Halt
            } else {
                State::Card(st_i - 1)
            };
            res.push(Instructions { write, direction, state });
            idx = idx + 1;
        }
        proof {
            assert(res@ =~= alphabet(num_cards as nat, num_symbols as nat));
        }
        res
    }

    /// Constructs every possible instruction row from the alphabet: the
    /// combination generator applied with target length `num_symbols`.
    pub fn generate_all_possible_cards(inst: Vec<Instructions>, num_symbols: usize) -> (r: Vec<
        Card,
    >)
        ensures
            r@.map_values(|c: Card| c@) == combos(inst@, num_symbols as nat),
    {
        let rows = generate_combinations(&inst, num_symbols);
        let mut res: Vec<Card> = Vec::new();
        let mut i: usize = 0;
        while i < rows.len()
            invariant
                i <= rows@.len(),
                res@.len() == i,
                forall|m: int|
                    0 <= m < rows@.len() ==> (#[trigger] rows@[m])@ == combos(
                        inst@,
                        num_symbols as nat,
                    )[m],
                forall|m: int|
                    0 <= m < i ==> (#[trigger] res@[m])@ == combos(inst@, num_symbols as nat)[m],
            decreases rows@.len() - i,
        {
            let row = &rows[i];
            let mut v: Vec<Instructions> = Vec::new();
            let mut m: usize = 0;
            while m < row.len()
                invariant
                    m <= row@.len(),
                    v@ == row@.take(m as int),
                decreases row@.len() - m,
            {
                v.push(row[m]);
                proof {
                    assert(row@.take(m + 1 as int) =~= row@.take(m as int).push(row@[m as int]));
                }
                m = m + 1;
            }
            proof {
                assert(row@.take(row@.len() as int) =~= row@);
            }
            res.push(Card::new(v));
            i = i + 1;
        }
        proof {
            lemma_combos_len(inst@, num_symbols as nat);
            assert(res@.map_values(|c: Card| c@) =~= combos(inst@, num_symbols as nat));
        }
        res
    }

    /// Constructs every possible transition table from the rows and keeps
    /// exactly those that contain the halt state.
    pub fn generate_all_possible_machines(cards: Vec<Card>, num_cards: usize) -> (r: Vec<Cards>)
        ensures
            r@.map_values(|cs: Cards| cs@) == admitted_tables(
                combos(cards@.map_values(|c: Card| c@), num_cards as nat),
            ),
    {
        let ghost pool = cards@.map_values(|c: Card| c@);
        let ghost f = |m: usize| cards@[m as int]@;
        let mut idx: Vec<usize> = Vec::new();
        let mut i: usize = 0;
        while i < cards.len()
            invariant
                i <= cards@.len(),
                idx@.len() == i,
                forall|m: int| 0 <= m < i ==> (#[trigger] idx@[m]) == m,
            decreases cards@.len() - i,
        {
            idx.push(i);
            i = i + 1;
        }
        let icombos = generate_combinations(&idx, num_cards);
        let ghost tables = combos(pool, num_cards as nat);
        proof {
            assert(idx@.map_values(f) =~= pool);
            lemma_combos_map(idx@, f, num_cards as nat);
            lemma_combos_len(idx@, num_cards as nat);
            lemma_combos_elems(idx@, num_cards as nat);
            assert(icombos@.len() == tables.len());
        }
        let mut res: Vec<Cards> = Vec::new();
        let mut j: usize = 0;
        while j < icombos.len()
            invariant
                j <= icombos@.len(),
                icombos@.len() == tables.len(),
                pool == cards@.map_values(|c: Card| c@),
                f == (|m: usize| cards@[m as int]@),
                tables == combos(pool, num_cards as nat),
                tables == combos(idx@, num_cards as nat).map_values(
                    |s: Seq<usize>| s.map_values(f),
                ),
                forall|m: int|
                    0 <= m < icombos@.len() ==> (#[trigger] icombos@[m])@ == combos(
                        idx@,
                        num_cards as nat,
                    )[m],
                forall|m: int|
                    0 <= m < icombos@.len() ==> (#[trigger] combos(idx@, num_cards as nat)[m]).len()
                        == num_cards as nat,
                forall|m: int, w: int|
                    0 <= m < icombos@.len() && 0 <= w < num_cards as nat ==> idx@.contains(
                        #[trigger] combos(idx@, num_cards as nat)[m][w],
                    ),
                forall|m: int| 0 <= m < idx@.len() ==> (#[trigger] idx@[m]) == m,
                idx@.len() == cards@.len(),
                res@.map_values(|cs: Cards| cs@) == admitted_tables(tables.take(j as int)),
            decreases icombos@.len() - j,
        {
            let ic = &icombos[j];
            let mut tbl: Vec<Card> = Vec::new();
            let mut m: usize = 0;
            while m < ic.len()
                invariant
                    m <= ic@.len(),
                    j < icombos@.len(),
                    icombos@.len() == tables.len(),
                    ic@ == icombos@[j as int]@,
                    ic@ == combos(idx@, num_cards as nat)[j as int],
                    ic@.len() == num_cards as nat,
                    forall|w: int|
                        0 <= w < num_cards as nat ==> idx@.contains(
                            #[trigger] combos(idx@, num_cards as nat)[j as int][w],
                        ),
                    forall|w: int| 0 <= w < idx@.len() ==> (#[trigger] idx@[w]) == w,
                    idx@.len() == cards@.len(),
                    f == (|m: usize| cards@[m as int]@),
                    tbl@.len() == m,
                    forall|w: int| 0 <= w < m ==> (#[trigger] tbl@[w])@ == f(ic@[w]),
                decreases ic@.len() - m,
            {
                proof {
                    assert(idx@.contains(ic@[m as int]));
                    let w = choose|w: int| 0 <= w < idx@.len() && idx@[w] == ic@[m as int];
                    assert(ic@[m as int] < cards@.len());
                }
                let ci = ic[m];
                tbl.push(cards[ci].clone());
                m = m + 1;
            }
            let t = Cards::new(tbl);
            proof {
                assert(t@ =~= ic@.map_values(f));
                assert(tables[j as int] == combos(idx@, num_cards as nat)[j as int].map_values(f));
                assert(t@ == tables[j as int]);
                assert(tables.take(j + 1 as int).drop_last() =~= tables.take(j as int));
                assert(tables.take(j + 1 as int).last() == tables[j as int]);
            }
            if t.contains_halt_state() {
                res.push(t);
                proof {
                    assert(res@.map_values(|cs: Cards| cs@) =~= admitted_tables(
                        tables.take(j + 1 as int),
                    ));
                }
            } else {
                proof {
                    assert(res@.map_values(|cs: Cards| cs@) =~= admitted_tables(
                        tables.take(j + 1 as int),
                    ));
                }
            }
            j = j + 1;
        }
        proof {
            assert(tables.take(tables.len() as int) =~= tables);
        }
        res
    }

    /// Generates all possible machines for `(num_cards, num_symbols)` that
    /// contain the halt state: the full enumeration, then the admission
    /// filter.
    pub fn generate(num_cards: usize, num_symbols: usize) -> (r: Self)
        requires
            1 <= num_cards,
            1 <= num_symbols <= 256,
            ((num_cards + 1) as int) * 2 * (num_symbols as int) <= usize::MAX as int,
        ensures
            r@ == enumerated(num_cards as nat, num_symbols as nat),
            forall|m: int| 0 <= m < r@.len() ==> table_wf(#[trigger] r@[m]),
    {
        let inst = Self::generate_instructions(num_cards, num_symbols);
        let cards = Self::generate_all_possible_cards(inst, num_symbols);
        let machines = Self::generate_all_possible_machines(cards, num_cards);
        proof {
            lemma_enumerated_wf(num_cards as nat, num_symbols as nat);
        }
        Self(machines)
    }
}

/// Every admitted table is well formed: `n` rows of `k` instructions each,
/// every instruction drawn from the alphabet.
pub proof fn lemma_enumerated_wf(n: nat, k: nat)
    requires
        1 <= n,
        1 <= k <= 256,
    ensures
        forall|m: int| 0 <= m < enumerated(n, k).len() ==> table_wf(#[trigger] enumerated(n, k)[m]),
{
    lemma_alphabet(n, k);
    lemma_combos_elems(alphabet(n, k), k);
    lemma_combos_elems(all_rows(n, k), n);
    assert forall|m: int|
        0 <= m < enumerated(n, k).len() implies table_wf(#[trigger] enumerated(n, k)[m]) by {
        let t = enumerated(n, k)[m];
        assert(enumerated(n, k).contains(t));
        lemma_admitted_tables(all_tables(n, k), t);
        let w = choose|w: int| 0 <= w < all_tables(n, k).len() && all_tables(n, k)[w] == t;
        assert(t.len() == n);
        assert forall|i: int| 0 <= i < t.len() implies (#[trigger] t[i]).len() == k by {
            assert(all_rows(n, k).contains(t[i]));
            let v = choose|v: int| 0 <= v < all_rows(n, k).len() && all_rows(n, k)[v] == t[i];
        }
        assert forall|i: int, jj: int|
            0 <= i < t.len() && 0 <= jj < t[i].len() implies instruction_wf(
            #[trigger] t[i][jj],
            n,
            k,
        ) by {
            assert(all_rows(n, k).contains(t[i]));
            let v = choose|v: int| 0 <= v < all_rows(n, k).len() && all_rows(n, k)[v] == t[i];
            assert(alphabet(n, k).contains(t[i][jj]));
            let u = choose|u: int| 0 <= u < alphabet(n, k).len() && alphabet(n, k)[u] == t[i][jj];
        }
    }
}

/// A table appears in the enumerator's output exactly when it is one of
/// the `(n, k)` candidates and contains a halting transition.
pub proof fn lemma_enumerated_has_halt(n: nat, k: nat, t: Seq<Seq<Instructions>>)
    ensures
        enumerated(n, k).contains(t) <==> all_tables(n, k).contains(t) && has_halt(t),
{
    lemma_admitted_tables(all_tables(n, k), t);
}

/// A table without any halting transition — in particular one whose
/// instructions all point back at a card — never appears in the filtered
/// enumeration output, for any `(n, k)`.
pub proof fn lemma_no_haltless_table(n: nat, k: nat, t: Seq<Seq<Instructions>>)
    requires
        !has_halt(t),
    ensures
        !enumerated(n, k).contains(t),
{
    lemma_admitted_tables(all_tables(n, k), t);
}

/// Completeness of the alphabet: every instruction that is valid for a
/// machine with `n` states and `k` symbols occurs in it.
pub proof fn lemma_alphabet_complete(n: nat, k: nat, inst: Instructions)
    requires
        1 <= k <= 256,
        instruction_wf(inst, n, k),
    ensures
        alphabet(n, k).contains(inst),
{
    let ki = k as int;
    let sym = inst.write.0 as int;
    let d: int = if inst.direction == Direction::Left {
        0
    } else {
        1
    };
    let s: int = match inst.state {
        State::Halt => 0,
        State::Card(m) => m + 1,
    };
    let idx = s * 2 * ki + d * ki + sym;
    assert(0 <= idx < ((n + 1) * 2 * k) as int) by (nonlinear_arith)
        requires
            0 <= sym < ki,
            0 <= d <= 1,
            0 <= s <= n,
            ki == k as int,
            ki >= 1,
            idx == s * 2 * ki + d * ki + sym,
    ;
    assert(idx == (s * 2 + d) * ki + sym) by (nonlinear_arith)
        requires
            idx == s * 2 * ki + d * ki + sym,
    ;
    lemma_fundamental_div_mod_converse(idx, ki, s * 2 + d, sym);
    lemma_fundamental_div_mod_converse(s * 2 + d, 2, s, d);
    assert(idx == s * (2 * ki) + (d * ki + sym)) by (nonlinear_arith)
        requires
            idx == s * 2 * ki + d * ki + sym,
    ;
    assert(0 <= d * ki + sym < 2 * ki) by (nonlinear_arith)
        requires
            0 <= sym < ki,
            0 <= d <= 1,
    ;
    lemma_fundamental_div_mod_converse(idx, 2 * ki, s, d * ki + sym);
    assert(alphabet(n, k)[idx] == alphabet_entry(idx, k));
    assert(alphabet_entry(idx, k) == inst);
    assert(alphabet(n, k).contains(inst));
}

/// No two positions of the alphabet hold the same instruction: the
/// Cartesian product has no repetitions.
pub proof fn lemma_alphabet_distinct(n: nat, k: nat)
    requires
        1 <= k <= 256,
        n < usize::MAX,
    ensures
        forall|a: int, b: int|
            0 <= a < alphabet(n, k).len() && 0 <= b < alphabet(n, k).len() && a != b ==> alphabet(
                n,
                k,
            )[a] != alphabet(n, k)[b],
{
    let ki = k as int;
    assert forall|a: int, b: int|
        0 <= a < alphabet(n, k).len() && 0 <= b < alphabet(n, k).len() && a != b implies alphabet(
        n,
        k,
    )[a] != alphabet(n, k)[b] by {
        if alphabet(n, k)[a] == alphabet(n, k)[b] {
            lemma_mod_bound(a, ki);
            lemma_mod_bound(b, ki);
            assert(a % ki == b % ki);
            lemma_div_pos_is_pos(a, ki);
            lemma_div_pos_is_pos(b, ki);
            lemma_mod_bound(a / ki, 2);
            lemma_mod_bound(b / ki, 2);
            assert((a / ki) % 2 == (b / ki) % 2);
            lemma_div_pos_is_pos(a, 2 * ki);
            lemma_div_pos_is_pos(b, 2 * ki);
            assert(a < (n + 1) * (2 * ki)) by (nonlinear_arith)
                requires
                    a < ((n + 1) * 2 * k) as int,
                    ki == k as int,
            ;
            assert(b < (n + 1) * (2 * ki)) by (nonlinear_arith)
                requires
                    b < ((n + 1) * 2 * k) as int,
                    ki == k as int,
            ;
            lemma_multiply_divide_lt(a, 2 * ki, (n + 1) as int);
            lemma_multiply_divide_lt(b, 2 * ki, (n + 1) as int);
            assert(a / (2 * ki) == b / (2 * ki));
            lemma_div_denominator(a, ki, 2);
            lemma_div_denominator(b, ki, 2);
            lemma_fundamental_div_mod(a / ki, 2);
            lemma_fundamental_div_mod(b / ki, 2);
            lemma_fundamental_div_mod(a, ki);
            lemma_fundamental_div_mod(b, ki);
            assert(a == b) by (nonlinear_arith)
                requires
                    a == ki * (a / ki) + a % ki,
                    b == ki * (b / ki) + b % ki,
                    a / ki == 2 * ((a / ki) / 2) + (a / ki) % 2,
                    b / ki == 2 * ((b / ki) / 2) + (b / ki) % 2,
                    (a / ki) / 2 == (b / ki) / 2,
                    (a / ki) % 2 == (b / ki) % 2,
                    a % ki == b % ki,
            ;
            assert(false);
        }
    }
}

/// The admission filter keeps its input's entries pairwise distinct.
pub proof fn lemma_admitted_distinct(tables: Seq<Seq<Seq<Instructions>>>)
    requires
        forall|a: int, b: int|
            0 <= a < tables.len() && 0 <= b < tables.len() && a != b ==> tables[a] != tables[b],
    ensures
        forall|a: int, b: int|
            0 <= a < admitted_tables(tables).len() && 0 <= b < admitted_tables(tables).len() && a
                != b ==> admitted_tables(tables)[a] != admitted_tables(tables)[b],
    decreases tables.len(),
{
    if tables.len() > 0 {
        let dl = tables.drop_last();
        let last = tables.last();
        assert forall|a: int, b: int|
            0 <= a < dl.len() && 0 <= b < dl.len() && a != b implies dl[a] != dl[b] by {
            assert(dl[a] == tables[a]);
            assert(dl[b] == tables[b]);
        }
        lemma_admitted_distinct(dl);
        if has_halt(last) {
            if admitted_tables(dl).contains(last) {
                lemma_admitted_tables(dl, last);
                let w = choose|w: int| 0 <= w < dl.len() && (#[trigger] dl[w]) == last;
                assert(tables[w] == tables[tables.len() - 1]);
                assert(false);
            }
            assert forall|a: int, b: int|
                0 <= a < admitted_tables(tables).len() && 0 <= b < admitted_tables(tables).len()
                    && a != b implies admitted_tables(tables)[a] != admitted_tables(tables)[b] by {
                let rest = admitted_tables(dl);
                if a < rest.len() && b < rest.len() {
                    assert(admitted_tables(tables)[a] == rest[a]);
                    assert(admitted_tables(tables)[b] == rest[b]);
                } else if a == rest.len() {
                    assert(admitted_tables(tables)[b] == rest[b]);
                    assert(rest.contains(rest[b]));
                    assert(admitted_tables(tables)[a] == last);
                } else {
                    assert(admitted_tables(tables)[a] == rest[a]);
                    assert(rest.contains(rest[a]));
                    assert(admitted_tables(tables)[b] == last);
                }
            }
        }
    }
}

/// The enumerator's output lists pairwise distinct tables: every table it
/// yields appears exactly once.
pub proof fn lemma_enumerated_distinct(n: nat, k: nat)
    requires
        1 <= k <= 256,
        n < usize::MAX,
    ensures
        forall|a: int, b: int|
            0 <= a < enumerated(n, k).len() && 0 <= b < enumerated(n, k).len() && a != b
                ==> enumerated(n, k)[a] != enumerated(n, k)[b],
{
    lemma_alphabet_distinct(n, k);
    crate::combinations::lemma_combos_distinct(alphabet(n, k), k);
    crate::combinations::lemma_combos_distinct(all_rows(n, k), n);
    lemma_admitted_distinct(all_tables(n, k));
}

/// Completeness of the enumerator: every well-formed `n`-state `k`-symbol
/// table that contains a halting transition appears in its output.
pub proof fn lemma_enumerated_complete(n: nat, k: nat, t: Seq<Seq<Instructions>>)
    requires
        1 <= k <= 256,
        t.len() == n,
        forall|i: int| 0 <= i < t.len() ==> (#[trigger] t[i]).len() == k,
        forall|i: int, j: int|
            0 <= i < t.len() && 0 <= j < t[i].len() ==> instruction_wf(#[trigger] t[i][j], n, k),
        has_halt(t),
    ensures
        enumerated(n, k).contains(t),
{
    assert forall|i: int| 0 <= i < t.len() implies all_rows(n, k).contains(#[trigger] t[i]) by {
        assert forall|j: int|
            0 <= j < t[i].len() implies alphabet(n, k).contains(#[trigger] t[i][j]) by {
            lemma_alphabet_complete(n, k, t[i][j]);
        }
        lemma_combos_complete(alphabet(n, k), k, t[i]);
    }
    lemma_combos_complete(all_rows(n, k), n, t);
    lemma_admitted_tables(all_tables(n, k), t);
}

/// The number of candidate tables before the admission filter is
/// `((K * 2 * (N + 1))^K)^N`.
pub proof fn lemma_enumeration_size(n: nat, k: nat)
    ensures
        all_rows(n, k).len() == pow((k * 2 * (n + 1)) as int, k),
        all_tables(n, k).len() == pow(pow((k * 2 * (n + 1)) as int, k), n),
{
    lemma_combos_len(alphabet(n, k), k);
    lemma_combos_len(all_rows(n, k), n);
    assert((n + 1) * 2 * k == k * 2 * (n + 1)) by (nonlinear_arith);
}

} // verus!
