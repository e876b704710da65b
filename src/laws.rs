use vstd::prelude::*;

use vstd::arithmetic::div_mod::{lemma_fundamental_div_mod, lemma_fundamental_div_mod_converse};

use crate::ledger::{entry_ok, has_kanji, index_of, lemma_index_of, lemma_record_wf, opens_slot, LedgerModel};
use crate::notebook::{page_of, row_of};

verus! {

/// How many times `c` occurs in `cs`.
pub open spec fn count_char(cs: Seq<char>, c: char) -> nat
    decreases cs.len(),
{
    if cs.len() == 0 {
        0
    } else {
        count_char(cs.drop_last(), c) + if cs.last() == c {
            1nat
        } else {
            0nat
        }
    }
}

/// Slots needed for `occasions` writings at `kanji_per_row` to a row, rounded up.
pub open spec fn ceil_div(occasions: nat, kanji_per_row: nat) -> nat
    recommends
        kanji_per_row > 0,
{
    ((occasions + kanji_per_row - 1) / (kanji_per_row as int)) as nat
}

/// Writing `x` adds one occasion to `x` and leaves every other kanji's count alone.
pub proof fn lemma_record_occasions(m: LedgerModel, x: char, c: char)
    requires
        m.wf(),
    ensures
        m.record(x).occasions_of(c) == m.occasions_of(c) + if x == c {
            1nat
        } else {
            0nat
        },
{
    let r = m.record(x);
    lemma_record_wf(m, x);
    if has_kanji(m.items, x) {
        let i = index_of(m.items, x);
        assert(m.items[i].0 == x);
        assert(r.items[i].0 == x);
        if x == c {
            lemma_index_of(r.items, c, i);
        } else if has_kanji(m.items, c) {
            let j = index_of(m.items, c);
            assert(m.items[j].0 == c);
            assert(r.items[j] == m.items[j]);
            lemma_index_of(r.items, c, j);
        } else {
            assert forall|k: int| 0 <= k < r.items.len() implies r.items[k].0 != c by {
                if k != i {
                    assert(r.items[k] == m.items[k]);
                }
            }
        }
    } else {
        let n = m.items.len() as int;
        if x == c {
            lemma_index_of(r.items, c, n);
        } else if has_kanji(m.items, c) {
            let j = index_of(m.items, c);
            assert(m.items[j].0 == c);
            assert(r.items[j] == m.items[j]);
            lemma_index_of(r.items, c, j);
        } else {
            assert forall|k: int| 0 <= k < r.items.len() implies r.items[k].0 != c by {
                if k < n {
                    assert(r.items[k] == m.items[k]);
                }
            }
        }
    }
}

/// Recording a run of kanji into a well-formed ledger keeps it well formed.
pub proof fn lemma_record_all_wf(m: LedgerModel, cs: Seq<char>)
    requires
        m.wf(),
    ensures
        m.record_all(cs).wf(),
        m.record_all(cs).kanji_per_row == m.kanji_per_row,
        m.record_all(cs).rows_per_page == m.rows_per_page,
    decreases cs.len(),
{
    if cs.len() > 0 {
        lemma_record_all_wf(m, cs.drop_last());
        lemma_record_wf(m.record_all(cs.drop_last()), cs.last());
    }
}

/// Starting from an empty ledger, the occasion count of a kanji is the
/// number of times it was written.
pub proof fn lemma_occasions_count_writes(
    kanji_per_row: nat,
    rows_per_page: nat,
    cs: Seq<char>,
    c: char,
)
    requires
        kanji_per_row > 0,
        rows_per_page > 0,
    ensures
        LedgerModel::fresh(kanji_per_row, rows_per_page).record_all(cs).occasions_of(c)
            == count_char(cs, c),
    decreases cs.len(),
{
    let m = LedgerModel::fresh(kanji_per_row, rows_per_page);
    if cs.len() > 0 {
        lemma_occasions_count_writes(kanji_per_row, rows_per_page, cs.drop_last(), c);
        lemma_record_all_wf(m, cs.drop_last());
        lemma_record_occasions(m.record_all(cs.drop_last()), cs.last(), c);
    }
}

/// Every record of `m` holds as many slots as its occasions fill rows, rounded up.
pub open spec fn slots_fill_rows(m: LedgerModel) -> bool {
    forall|i: int|
        0 <= i < m.items.len() ==> (#[trigger] m.items[i].1).ids.len() == ceil_div(
            m.items[i].1.occasions,
            m.kanji_per_row,
        )
}

/// One more occasion needs one more slot exactly when it opens one.
proof fn lemma_ceil_step(o: nat, k: nat)
    requires
        o >= 1,
        k >= 1,
    ensures
        ceil_div(o + 1, k) == ceil_div(o, k) + if opens_slot(o + 1, k) {
            1nat
        } else {
            0nat
        },
{
    let ki = k as int;
    lemma_fundamental_div_mod(o as int, ki);
    let q = o as int / ki;
    let r = o as int % ki;
    assert((q + 1) * ki == q * ki + ki) by (nonlinear_arith);
    if r == 0 {
        if ki >= 2 {
            lemma_fundamental_div_mod_converse(o as int + 1, ki, q, 1);
        }
        lemma_fundamental_div_mod_converse(o + ki - 1, ki, q, ki - 1);
        lemma_fundamental_div_mod_converse(o + ki, ki, q + 1, 0);
    } else {
        if r + 1 < ki {
            lemma_fundamental_div_mod_converse(o as int + 1, ki, q, r + 1);
        } else {
            lemma_fundamental_div_mod_converse(o as int + 1, ki, q + 1, 0);
        }
        lemma_fundamental_div_mod_converse(o + ki - 1, ki, q + 1, r - 1);
        lemma_fundamental_div_mod_converse(o + ki, ki, q + 1, r);
    }
}

/// Writing a kanji keeps every record's slot count equal to its filled rows.
proof fn lemma_record_slots(m: LedgerModel, x: char)
    requires
        m.wf(),
        m.kanji_per_row >= 1,
        slots_fill_rows(m),
    ensures
        slots_fill_rows(m.record(x)),
{
    let r = m.record(x);
    let k = m.kanji_per_row;
    if has_kanji(m.items, x) {
        let i = index_of(m.items, x);
        assert(m.items[i].0 == x);
        let e = m.items[i].1;
        assert(entry_ok(e, m.current_id));
        lemma_ceil_step(e.occasions, k);
        assert forall|j: int| 0 <= j < r.items.len() implies (#[trigger] r.items[j].1).ids.len()
            == ceil_div(r.items[j].1.occasions, r.kanji_per_row) by {
            if j != i {
                assert(r.items[j] == m.items[j]);
            }
        }
    } else {
        lemma_fundamental_div_mod_converse(k as int, k as int, 1, 0);
        assert forall|j: int| 0 <= j < r.items.len() implies (#[trigger] r.items[j].1).ids.len()
            == ceil_div(r.items[j].1.occasions, r.kanji_per_row) by {
            if j < m.items.len() {
                assert(r.items[j] == m.items[j]);
            }
        }
    }
}

/// Starting from an empty ledger, every kanji holds as many slots as its
/// occasions fill rows, rounded up.
pub proof fn lemma_slots_fill_rows(kanji_per_row: nat, rows_per_page: nat, cs: Seq<char>)
    requires
        kanji_per_row >= 1,
        rows_per_page > 0,
    ensures
        slots_fill_rows(LedgerModel::fresh(kanji_per_row, rows_per_page).record_all(cs)),
    decreases cs.len(),
{
    let m = LedgerModel::fresh(kanji_per_row, rows_per_page);
    if cs.len() > 0 {
        lemma_slots_fill_rows(kanji_per_row, rows_per_page, cs.drop_last());
        lemma_record_all_wf(m, cs.drop_last());
        lemma_record_slots(m.record_all(cs.drop_last()), cs.last());
    }
}

/// Distinct slots below `rows_per_page * pages` sit at distinct positions,
/// each on a page from 1 to `pages` and a row from 1 to `rows_per_page`.
pub proof fn lemma_position_injective(a: nat, b: nat, rows_per_page: nat, pages: nat)
    requires
        rows_per_page > 0,
        a < rows_per_page * pages,
        b < rows_per_page * pages,
    ensures
        1 <= page_of(a, rows_per_page) <= pages,
        1 <= row_of(a, rows_per_page) <= rows_per_page,
        page_of(a, rows_per_page) == page_of(b, rows_per_page) && row_of(a, rows_per_page)
            == row_of(b, rows_per_page) ==> a == b,
{
    let r = rows_per_page as int;
    lemma_fundamental_div_mod(a as int, r);
    lemma_fundamental_div_mod(b as int, r);
    let q = a as int / r;
    assert(q < pages) by (nonlinear_arith)
        requires
            a == r * q + (a as int % r),
            a as int % r >= 0,
            a < r * pages,
            r > 0,
    ;
}

} // verus!
