use vstd::prelude::*;

use crate::notebook::{page_of, row_of, KanjiRepresentation};

verus! {

/// Mathematical content of one kanji's record.
pub struct EntryModel {
    /// Slot identifiers in the order they were given out; the last one is current.
    pub ids: Seq<nat>,
    /// How many times the kanji has been written.
    pub occasions: nat,
}

/// Mathematical content of a whole ledger.
pub struct LedgerModel {
    /// One record per kanji; no kanji has two records.
    pub items: Seq<(char, EntryModel)>,
    /// The next slot identifier to give out.
    pub current_id: nat,
    pub kanji_per_row: nat,
    pub rows_per_page: nat,
}

pub open spec fn ids_model(ids: Seq<u16>) -> Seq<nat> {
    ids.map_values(|x: u16| x as nat)
}

pub open spec fn items_model(items: Seq<(char, KanjiInfo)>) -> Seq<(char, EntryModel)> {
    items.map_values(|p: (char, KanjiInfo)| (p.0, p.1@))
}

pub open spec fn has_kanji(items: Seq<(char, EntryModel)>, c: char) -> bool {
    exists|i: int| 0 <= i < items.len() && items[i].0 == c
}

/// Position of the record of `c`; meaningful when `has_kanji(items, c)`.
pub open spec fn index_of(items: Seq<(char, EntryModel)>, c: char) -> int {
    choose|i: int| 0 <= i < items.len() && items[i].0 == c
}

pub open spec fn keys_unique(items: Seq<(char, EntryModel)>) -> bool {
    forall|i: int, j: int|
        0 <= i < items.len() && 0 <= j < items.len() && i != j ==> items[i].0 != items[j].0
}

/// A record has at least one slot, no more slots than occasions, and slots
/// that increase and were all given out before `current_id`.
pub open spec fn entry_ok(e: EntryModel, current_id: nat) -> bool {
    &&& 1 <= e.ids.len() <= e.occasions
    &&& forall|i: int, j: int| 0 <= i < j < e.ids.len() ==> e.ids[i] < e.ids[j]
    &&& forall|i: int| 0 <= i < e.ids.len() ==> e.ids[i] < current_id
}

/// A row holds `kanji_per_row` occasions: the occasion that starts a row is
/// the one whose count leaves remainder one; with one kanji to a row, every
/// occasion after the first starts a row.
pub open spec fn opens_slot(occasions: nat, kanji_per_row: nat) -> bool {
    occasions % kanji_per_row == 1 || (kanji_per_row == 1 && occasions >= 2)
}

/// No slot belongs to both records.
pub open spec fn slots_disjoint(a: EntryModel, b: EntryModel) -> bool {
    forall|x: int, y: int| 0 <= x < a.ids.len() && 0 <= y < b.ids.len() ==> a.ids[x] != b.ids[y]
}

pub proof fn lemma_disjoint_symmetric(a: EntryModel, b: EntryModel)
    requires
        slots_disjoint(a, b),
    ensures
        slots_disjoint(b, a),
{
    assert forall|x: int, y: int| 0 <= x < b.ids.len() && 0 <= y < a.ids.len() implies b.ids[x]
        != a.ids[y] by {
        assert(a.ids[y] != b.ids[x]);
    }
}

/// A slot above every slot of `b` can join `a` without meeting `b`.
proof fn lemma_disjoint_push(a: EntryModel, b: EntryModel, id: nat, occasions: nat)
    requires
        slots_disjoint(a, b),
        forall|y: int| 0 <= y < b.ids.len() ==> b.ids[y] < id,
    ensures
        slots_disjoint(EntryModel { ids: a.ids.push(id), occasions }, b),
        slots_disjoint(b, EntryModel { ids: a.ids.push(id), occasions }),
{
    let n = EntryModel { ids: a.ids.push(id), occasions };
    assert forall|x: int, y: int| 0 <= x < n.ids.len() && 0 <= y < b.ids.len() implies n.ids[x]
        != b.ids[y] by {
        if x < a.ids.len() {
            assert(a.ids[x] != b.ids[y]);
        }
    }
    lemma_disjoint_symmetric(n, b);
}

pub const MAX_COUNT: u16 = 65535;

impl LedgerModel {
    pub open spec fn wf(self) -> bool {
        &&& self.kanji_per_row > 0
        &&& self.rows_per_page > 0
        &&& keys_unique(self.items)
        &&& forall|i: int| 0 <= i < self.items.len() ==> entry_ok(#[trigger] self.items[i].1, self.current_id)
        &&& forall|i: int, j: int|
            0 <= i < self.items.len() && 0 <= j < self.items.len() && i != j ==> slots_disjoint(
                #[trigger] self.items[i].1,
                #[trigger] self.items[j].1,
            )
    }

    /// An empty ledger with the given configuration.
    pub open spec fn fresh(kanji_per_row: nat, rows_per_page: nat) -> LedgerModel {
        LedgerModel { items: Seq::empty(), current_id: 0, kanji_per_row, rows_per_page }
    }

    /// How many times `c` has been written (zero when it has no record).
    pub open spec fn occasions_of(self, c: char) -> nat {
        if has_kanji(self.items, c) {
            self.items[index_of(self.items, c)].1.occasions
        } else {
            0
        }
    }

    /// Whether writing `c` once more opens a new slot for it.
    pub open spec fn record_opens_slot(self, c: char) -> bool {
        has_kanji(self.items, c) && opens_slot(
            self.items[index_of(self.items, c)].1.occasions + 1,
            self.kanji_per_row,
        )
    }

    /// The ledger after `c` was written once more.
    pub open spec fn record(self, c: char) -> LedgerModel {
        if has_kanji(self.items, c) {
            let i = index_of(self.items, c);
            let e = self.items[i].1;
            if self.record_opens_slot(c) {
                LedgerModel {
                    items: self.items.update(
                        i,
                        (c, EntryModel { ids: e.ids.push(self.current_id), occasions: e.occasions + 1 }),
                    ),
                    current_id: self.current_id + 1,
                    kanji_per_row: self.kanji_per_row,
                    rows_per_page: self.rows_per_page,
                }
            } else {
                LedgerModel {
                    items: self.items.update(
                        i,
                        (c, EntryModel { ids: e.ids, occasions: e.occasions + 1 }),
                    ),
                    current_id: self.current_id,
                    kanji_per_row: self.kanji_per_row,
                    rows_per_page: self.rows_per_page,
                }
            }
        } else {
            LedgerModel {
                items: self.items.push((c, EntryModel { ids: seq![self.current_id], occasions: 1 })),
                current_id: self.current_id + 1,
                kanji_per_row: self.kanji_per_row,
                rows_per_page: self.rows_per_page,
            }
        }
    }

    /// The ledger after each character of `cs` was written, in order.
    pub open spec fn record_all(self, cs: Seq<char>) -> LedgerModel
        decreases cs.len(),
    {
        if cs.len() == 0 {
            self
        } else {
            self.record_all(cs.drop_last()).record(cs.last())
        }
    }

    /// Why writing `c` cannot be stored in sixteen-bit counters, if it cannot.
    pub open spec fn record_error(self, c: char) -> Option<RecordError> {
        if has_kanji(self.items, c) && self.items[index_of(self.items, c)].1.occasions
            >= MAX_COUNT {
            Some(RecordError::OccasionsExhausted)
        } else if (!has_kanji(self.items, c) || self.record_opens_slot(c)) && self.current_id
            >= MAX_COUNT {
            Some(RecordError::SlotsExhausted)
        } else {
            None
        }
    }

    /// What writing `c` reports.
    pub open spec fn outcome(self, c: char) -> RecordOutcome {
        if has_kanji(self.items, c) {
            let e = self.items[index_of(self.items, c)].1;
            RecordOutcome::Found {
                previous_id: e.ids.last() as u16,
                occasions: (e.occasions + 1) as u16,
                new_id: if self.record_opens_slot(c) {
                    Some(self.current_id as u16)
                } else {
                    None
                },
            }
        } else {
            RecordOutcome::Placed { id: self.current_id as u16 }
        }
    }
}

/// With distinct keys, a record found for `c` is the one `index_of` names.
pub proof fn lemma_index_of(items: Seq<(char, EntryModel)>, c: char, i: int)
    requires
        keys_unique(items),
        0 <= i < items.len(),
        items[i].0 == c,
    ensures
        has_kanji(items, c),
        index_of(items, c) == i,
{
    assert(has_kanji(items, c));
    let j = index_of(items, c);
    assert(items[j].0 == c);
}

/// Writing a kanji keeps a ledger well formed.
pub proof fn lemma_record_wf(m: LedgerModel, c: char)
    requires
        m.wf(),
    ensures
        m.record(c).wf(),
{
    let r = m.record(c);
    if has_kanji(m.items, c) {
        let i = index_of(m.items, c);
        assert(m.items[i].0 == c);
        assert(entry_ok(m.items[i].1, m.current_id));
        assert forall|k: int| 0 <= k < r.items.len() implies entry_ok(
            #[trigger] r.items[k].1,
            r.current_id,
        ) by {
            if k != i {
                assert(entry_ok(m.items[k].1, m.current_id));
            }
        }
        assert forall|a: int, b: int|
            0 <= a < r.items.len() && 0 <= b < r.items.len() && a != b implies slots_disjoint(
            #[trigger] r.items[a].1,
            #[trigger] r.items[b].1,
        ) by {
            assert(slots_disjoint(m.items[a].1, m.items[b].1));
            if m.record_opens_slot(c) {
                let e = m.items[i].1;
                if a == i {
                    assert(entry_ok(m.items[b].1, m.current_id));
                    lemma_disjoint_push(e, m.items[b].1, m.current_id, e.occasions + 1);
                } else if b == i {
                    assert(entry_ok(m.items[a].1, m.current_id));
                    lemma_disjoint_symmetric(m.items[a].1, e);
                    lemma_disjoint_push(e, m.items[a].1, m.current_id, e.occasions + 1);
                }
            }
        }
    } else {
        let n = m.items.len() as int;
        assert forall|k: int| 0 <= k < r.items.len() implies entry_ok(
            #[trigger] r.items[k].1,
            r.current_id,
        ) by {
            if k < n {
                assert(entry_ok(m.items[k].1, m.current_id));
            }
        }
        let empty = EntryModel { ids: Seq::empty(), occasions: 0 };
        assert(empty.ids.push(m.current_id) =~= seq![m.current_id]);
        assert forall|a: int, b: int|
            0 <= a < r.items.len() && 0 <= b < r.items.len() && a != b implies slots_disjoint(
            #[trigger] r.items[a].1,
            #[trigger] r.items[b].1,
        ) by {
            if a < n && b < n {
                assert(slots_disjoint(m.items[a].1, m.items[b].1));
            } else if a == n {
                assert(entry_ok(m.items[b].1, m.current_id));
                lemma_disjoint_push(empty, m.items[b].1, m.current_id, 1);
            } else {
                assert(entry_ok(m.items[a].1, m.current_id));
                lemma_disjoint_push(empty, m.items[a].1, m.current_id, 1);
            }
        }
    }
}

/// The record of one kanji.
pub struct KanjiInfo {
    pub ids: Vec<u16>,
    pub occasions: u16,
}

impl View for KanjiInfo {
    type V = EntryModel;

    open spec fn view(&self) -> EntryModel {
        EntryModel { ids: ids_model(self.ids@), occasions: self.occasions as nat }
    }
}

impl KanjiInfo {
    /// The record of a kanji written for the first time, placed on slot `id`.
    pub fn new(id: u16) -> (r: Self)
        ensures
            r@ == (EntryModel { ids: seq![id as nat], occasions: 1 }),
    {
        let r = KanjiInfo { ids: vec![id], occasions: 1 };
        assert(r@.ids =~= seq![id as nat]);
        r
    }
}

/// What happened when a kanji was written.
#[derive(Debug, Clone, Copy, PartialEq, Eq, Structural)]
pub enum RecordOutcome {
    /// The kanji was new and was placed on slot `id`.
    Placed { id: u16 },
    /// The kanji was known, its current slot was `previous_id`, it has now been
    /// written `occasions` times, and `new_id` is the slot opened for it, if any.
    Found { previous_id: u16, occasions: u16, new_id: Option<u16> },
}

/// Why a kanji could not be written.
#[derive(Debug, Clone, Copy, PartialEq, Eq, Structural)]
pub enum RecordError {
    /// Its occasion count is at the largest value a counter holds.
    OccasionsExhausted,
    /// A new slot is needed and every slot identifier has been given out.
    SlotsExhausted,
}

/// Why a configuration was refused: both sizes must be positive.
#[derive(Debug, Clone, Copy, PartialEq, Eq, Structural)]
pub enum ConfigError {
    /// A row was said to hold no kanji.
    ZeroKanjiPerRow,
    /// A page was said to hold no rows.
    ZeroRowsPerPage,
}

/// The ledger: every kanji written so far, the slot counter and the notebook's shape.
pub struct Database {
    pub items: Vec<(char, KanjiInfo)>,
    pub current_id: u16,
    pub kanji_per_row: u16,
    pub rows_per_page: u16,
}

impl View for Database {
    type V = LedgerModel;

    open spec fn view(&self) -> LedgerModel {
        LedgerModel {
            items: items_model(self.items@),
            current_id: self.current_id as nat,
            kanji_per_row: self.kanji_per_row as nat,
            rows_per_page: self.rows_per_page as nat,
        }
    }
}

/// Whether one record, as read back from storage, is well formed.
pub fn entry_is_consistent(info: &KanjiInfo, current_id: u16) -> (r: bool)
    ensures
        r == entry_ok(info@, current_id as nat),
{
    let n = info.ids.len();
    if n == 0 || n > info.occasions as usize {
        return false;
    }
    let mut i: usize = 0;
    while i < n
        invariant
            n == info.ids.len(),
            0 <= i <= n,
            forall|a: int, b: int| 0 <= a < b < i ==> info@.ids[a] < info@.ids[b],
            forall|a: int| 0 <= a < i ==> #[trigger] info@.ids[a] < current_id,
        decreases n - i,
    {
        let id = info.ids[i];
        if id >= current_id {
            assert(info@.ids[i as int] == id);
            return false;
        }
        if i > 0 && info.ids[i - 1] >= id {
            assert(info@.ids[i - 1] == info.ids@[i - 1]);
            assert(info@.ids[i as int] == id);
            return false;
        }
        assert forall|a: int, b: int| 0 <= a < b < i + 1 implies info@.ids[a] < info@.ids[b] by {
            if b == i && a < i - 1 {
                assert(info@.ids[a] < info@.ids[i - 1]);
            }
        }
        i = i + 1;
    }
    true
}

/// Whether two records, as read back from storage, share no slot.
pub fn slots_are_disjoint(a: &KanjiInfo, b: &KanjiInfo) -> (r: bool)
    ensures
        r == slots_disjoint(a@, b@),
{
    let n = a.ids.len();
    let m = b.ids.len();
    let mut x: usize = 0;
    while x < n
        invariant
            n == a.ids.len(),
            m == b.ids.len(),
            0 <= x <= n,
            forall|p: int, q: int| 0 <= p < x && 0 <= q < m ==> a@.ids[p] != b@.ids[q],
        decreases n - x,
    {
        let mut y: usize = 0;
        while y < m
            invariant
                n == a.ids.len(),
                m == b.ids.len(),
                0 <= x < n,
                0 <= y <= m,
                forall|p: int, q: int| 0 <= p < x && 0 <= q < m ==> a@.ids[p] != b@.ids[q],
                forall|q: int| 0 <= q < y ==> a@.ids[x as int] != b@.ids[q],
            decreases m - y,
        {
            if a.ids[x] == b.ids[y] {
                assert(a@.ids[x as int] == b@.ids[y as int]);
                return false;
            }
            y = y + 1;
        }
        x = x + 1;
    }
    true
}

impl Database {
    /// An empty ledger; both sizes must be positive.
    pub fn new(kanji_per_row: u16, rows_per_page: u16) -> (r: Result<Self, ConfigError>)
        ensures
            kanji_per_row == 0 ==> r == Err::<Self, ConfigError>(ConfigError::ZeroKanjiPerRow),
            kanji_per_row > 0 && rows_per_page == 0 ==> r == Err::<Self, ConfigError>(
                ConfigError::ZeroRowsPerPage,
            ),
            kanji_per_row > 0 && rows_per_page > 0 ==> (r matches Ok(db) && db@ == LedgerModel::fresh(
                kanji_per_row as nat,
                rows_per_page as nat,
            ) && db@.wf()),
    {
        if kanji_per_row == 0 {
            return Err(ConfigError::ZeroKanjiPerRow);
        }
        if rows_per_page == 0 {
            return Err(ConfigError::ZeroRowsPerPage);
        }
        let db = Database { items: Vec::new(), current_id: 0, kanji_per_row, rows_per_page };
        assert(db@.items =~= Seq::<(char, EntryModel)>::empty());
        Ok(db)
    }

    /// Whether a kanji written for the `occasions`-th time opens a new slot.
    pub fn have_space_in_line_ended(occasions: u16, kanji_per_row: u16) -> (r: bool)
        requires
            kanji_per_row > 0,
        ensures
            r == opens_slot(occasions as nat, kanji_per_row as nat),
    {
        occasions % kanji_per_row == 1 || (kanji_per_row == 1 && occasions >= 2)
    }

    /// Notebook position of slot `id` when each page holds `rows_per_page` rows.
    pub fn get_kanji_line(id: u16, rows_per_page: u16) -> (r: KanjiRepresentation)
        requires
            rows_per_page > 0,
        ensures
            r.page == page_of(id as nat, rows_per_page as nat),
            r.row == row_of(id as nat, rows_per_page as nat),
    {
        let page: u32 = (id / rows_per_page) as u32 + 1;
        let row: u32 = (id % rows_per_page) as u32 + 1;
        KanjiRepresentation::new(page, row)
    }

    /// Writes `kanji` once more: opens a record for a new kanji, or counts the
    /// occasion and, where the row is used up, opens a new slot.
    pub fn add_kanji(&mut self, kanji: char) -> (r: Result<RecordOutcome, RecordError>)
        requires
            old(self)@.wf(),
        ensures
            final(self)@.wf(),
            match old(self)@.record_error(kanji) {
                Some(e) => r == Err::<RecordOutcome, RecordError>(e) && final(self)@ == old(self)@,
                None => r == Ok::<RecordOutcome, RecordError>(old(self)@.outcome(kanji))
                    && final(self)@ == old(self)@.record(kanji),
            },
    {
        proof {
            lemma_record_wf(self@, kanji);
        }
        match self.find_kanji(kanji) {
            Some(i) => {
                proof {
                    assert(self@.items[i as int].0 == self.items@[i as int].0);
                    lemma_index_of(self@.items, kanji, i as int);
                }
                let occasions = self.items[i].1.occasions;
                if occasions == MAX_COUNT {
                    return Err(RecordError::OccasionsExhausted);
                }
                let len = self.items[i].1.ids.len();
                assert(self@.items[i as int].1.ids.len() == len);
                let previous_id = self.items[i].1.ids[len - 1];
                let new_occasions = occasions + 1;
                let opens = Self::have_space_in_line_ended(new_occasions, self.kanji_per_row);
                let current_id = self.current_id;
                if opens && current_id == MAX_COUNT {
                    return Err(RecordError::SlotsExhausted);
                }
                let ghost old_ids = self.items@[i as int].1.ids@;
                let entry = &mut self.items[i];
                entry.1.occasions = new_occasions;
                if opens {
                    entry.1.ids.push(current_id);
                }
                proof {
                    if opens {
                        assert(ids_model(self.items@[i as int].1.ids@) =~= ids_model(old_ids).push(
                            current_id as nat,
                        ));
                    }
                    assert(self@.items =~= old(self)@.record(kanji).items);
                }
                if opens {
                    self.current_id = current_id + 1;
                    Ok(RecordOutcome::Found { previous_id, occasions: new_occasions, new_id: Some(current_id) })
                } else {
                    Ok(RecordOutcome::Found { previous_id, occasions: new_occasions, new_id: None })
                }
            },
            None => {
                let id = self.current_id;
                if id == MAX_COUNT {
                    return Err(RecordError::SlotsExhausted);
                }
                self.items.push((kanji, KanjiInfo::new(id)));
                self.current_id = id + 1;
                proof {
                    assert(self@.items =~= old(self)@.record(kanji).items);
                }
                Ok(RecordOutcome::Placed { id })
            },
        }
    }

    /// Whether a ledger, as read back from storage, is well formed.
    pub fn is_consistent(&self) -> (r: bool)
        ensures
            r == self@.wf(),
    {
        if self.kanji_per_row == 0 || self.rows_per_page == 0 {
            return false;
        }
        let n = self.items.len();
        let mut i: usize = 0;
        while i < n
            invariant
                n == self.items.len(),
                0 <= i <= n,
                forall|a: int, b: int|
                    0 <= a < i && 0 <= b < i && a != b ==> self@.items[a].0 != self@.items[b].0,
                forall|a: int| 0 <= a < i ==> entry_ok(#[trigger] self@.items[a].1, self.current_id as nat),
                forall|a: int, b: int|
                    0 <= a < i && 0 <= b < i && a != b ==> slots_disjoint(
                        #[trigger] self@.items[a].1,
                        #[trigger] self@.items[b].1,
                    ),
            decreases n - i,
        {
            if !entry_is_consistent(&self.items[i].1, self.current_id) {
                assert(self@.items[i as int].1 == self.items@[i as int].1@);
                return false;
            }
            let mut j: usize = 0;
            while j < i
                invariant
                    n == self.items.len(),
                    0 <= j <= i < n,
                    forall|b: int| 0 <= b < j ==> self@.items[b].0 != self@.items[i as int].0,
                    forall|b: int|
                        0 <= b < j ==> slots_disjoint(#[trigger] self@.items[b].1, self@.items[i as int].1)
                            && slots_disjoint(self@.items[i as int].1, self@.items[b].1),
                decreases i - j,
            {
                if self.items[j].0 == self.items[i].0 {
                    assert(self@.items[j as int].0 == self@.items[i as int].0);
                    return false;
                }
                let disjoint = slots_are_disjoint(&self.items[j].1, &self.items[i].1);
                assert(self@.items[j as int].1 == self.items@[j as int].1@);
                assert(self@.items[i as int].1 == self.items@[i as int].1@);
                if !disjoint {
                    return false;
                }
                proof {
                    lemma_disjoint_symmetric(self@.items[j as int].1, self@.items[i as int].1);
                }
                j = j + 1;
            }
            assert forall|a: int, b: int|
                0 <= a < i + 1 && 0 <= b < i + 1 && a != b implies slots_disjoint(
                #[trigger] self@.items[a].1,
                #[trigger] self@.items[b].1,
            ) by {
                if a == i {
                    assert(slots_disjoint(self@.items[i as int].1, self@.items[b].1));
                } else if b == i {
                    assert(slots_disjoint(self@.items[a].1, self@.items[i as int].1));
                }
            }
            i = i + 1;
        }
        true
    }

    /// Index of the record of `kanji`, if it has one.
    pub fn find_kanji(&self, kanji: char) -> (r: Option<usize>)
        ensures
            match r {
                Some(i) => i < self.items.len() && self.items@[i as int].0 == kanji,
                None => !has_kanji(self@.items, kanji),
            },
    {
        let n = self.items.len();
        let mut i: usize = 0;
        while i < n
            invariant
                n == self.items.len(),
                0 <= i <= n,
                forall|j: int| 0 <= j < i ==> self.items@[j].0 != kanji,
            decreases n - i,
        {
            if self.items[i].0 == kanji {
                return Some(i);
            }
            i = i + 1;
        }
        proof {
            assert forall|j: int| 0 <= j < self@.items.len() implies self@.items[j].0 != kanji by {
                assert(self@.items[j].0 == self.items@[j].0);
            }
        }
        None
    }
}

} // verus!
