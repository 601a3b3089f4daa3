//! The ledger of invoices marked as paid: an audit trail in chronological
//! order, one entry per invoice key.

use vstd::prelude::*;

use crate::calendar::{date_text, is_valid_date, zero_padded, CalendarDate};
use crate::server::{payable, row_key, PayRequest, PayRow};
use crate::text::same_text;

verus! {

/// A single paid-invoice record of the audit trail.
#[derive(Debug)]
pub struct PaidEntry {
    /// Canonical invoice key: `{branch}|{supplier_code}|{invoice_number}`.
    pub key: String,
    /// Human-readable description for the audit trail.
    pub label: String,
    /// Timestamp of when it was marked paid.
    pub paid_at: String,
}

/// An entry as (key, label, paid_at) texts.
pub open spec fn entry_view(e: PaidEntry) -> (Seq<char>, Seq<char>, Seq<char>) {
    (e.key@, e.label@, e.paid_at@)
}

/// The keys of a list of entries.
pub open spec fn keys_of(s: Seq<(Seq<char>, Seq<char>, Seq<char>)>) -> Seq<Seq<char>> {
    s.map_values(|e: (Seq<char>, Seq<char>, Seq<char>)| e.0)
}

/// The entries after marking `rows` as paid at time `at`: each row whose key is
/// not yet in the trail is appended, in order, with its label and `at`.
pub open spec fn after_marking(
    entries: Seq<(Seq<char>, Seq<char>, Seq<char>)>,
    rows: Seq<PayRow>,
    at: Seq<char>,
) -> Seq<(Seq<char>, Seq<char>, Seq<char>)>
    decreases rows.len(),
{
    if rows.len() == 0 {
        entries
    } else {
        let prev = after_marking(entries, rows.drop_last(), at);
        let r = rows.last();
        if keys_of(prev).contains(row_key(r)) {
            prev
        } else {
            prev.push((row_key(r), r.label@, at))
        }
    }
}

/// Marking keeps every entry already in the trail, in place.
pub proof fn lemma_marking_keeps_entries(
    entries: Seq<(Seq<char>, Seq<char>, Seq<char>)>,
    rows: Seq<PayRow>,
    at: Seq<char>,
)
    ensures
        after_marking(entries, rows, at).len() >= entries.len(),
        after_marking(entries, rows, at).take(entries.len() as int) == entries,
    decreases rows.len(),
{
    if rows.len() > 0 {
        lemma_marking_keeps_entries(entries, rows.drop_last(), at);
        let prev = after_marking(entries, rows.drop_last(), at);
        let r = rows.last();
        assert(prev.push((row_key(r), r.label@, at)).take(entries.len() as int) =~= prev.take(
            entries.len() as int,
        ));
    }
}

/// The keys of the rows.
pub open spec fn row_keys(rows: Seq<PayRow>) -> Seq<Seq<char>> {
    rows.map_values(|r: PayRow| row_key(r))
}

proof fn lemma_keys_of_push(
    s: Seq<(Seq<char>, Seq<char>, Seq<char>)>,
    x: (Seq<char>, Seq<char>, Seq<char>),
)
    ensures
        keys_of(s.push(x)) == keys_of(s).push(x.0),
{
    assert(keys_of(s.push(x)) =~= keys_of(s).push(x.0));
}

/// After marking, a key is in the trail exactly when it was in it before or is
/// the key of one of the rows.
pub proof fn marking_adds_the_row_keys(
    entries: Seq<(Seq<char>, Seq<char>, Seq<char>)>,
    rows: Seq<PayRow>,
    at: Seq<char>,
)
    ensures
        forall|k: Seq<char>| #[trigger]
            keys_of(after_marking(entries, rows, at)).contains(k) <==> keys_of(entries).contains(k)
                || row_keys(rows).contains(k),
    decreases rows.len(),
{
    if rows.len() > 0 {
        let pr = rows.drop_last();
        marking_adds_the_row_keys(entries, pr, at);
        let prev = after_marking(entries, pr, at);
        let r = rows.last();
        let n = rows.len() - 1;
        lemma_keys_of_push(prev, (row_key(r), r.label@, at));
        assert(row_keys(rows) =~= row_keys(pr).push(row_key(r)));
        assert forall|k: Seq<char>| #[trigger]
            keys_of(after_marking(entries, rows, at)).contains(k) <==> keys_of(entries).contains(k)
                || row_keys(rows).contains(k) by {
            let after = after_marking(entries, rows, at);
            if keys_of(prev).contains(k) {
                let j = keys_of(prev).index_of(k);
                assert(keys_of(after)[j] == k);
            }
            if keys_of(after).contains(k) && k != row_key(r) {
                let j = keys_of(after).index_of(k);
                assert(keys_of(prev)[j] == k);
            }
            if row_keys(pr).contains(k) {
                let j = row_keys(pr).index_of(k);
                assert(row_keys(rows)[j] == k);
            }
            if row_keys(rows).contains(k) && k != row_key(r) {
                let j = row_keys(rows).index_of(k);
                assert(row_keys(pr)[j] == k);
            }
            if k == row_key(r) {
                assert(row_keys(rows)[n] == k);
                if !keys_of(prev).contains(k) {
                    assert(keys_of(after)[prev.len() as int] == k);
                }
            }
        }
    }
}

/// The entries marking appends have distinct keys, none of which was in the
/// trail before, and all carry the time of marking.
pub proof fn marking_appends_each_new_key_once(
    entries: Seq<(Seq<char>, Seq<char>, Seq<char>)>,
    rows: Seq<PayRow>,
    at: Seq<char>,
)
    ensures
        ({
            let after = after_marking(entries, rows, at);
            &&& forall|i: int, j: int|
                entries.len() <= i < after.len() && entries.len() <= j < after.len() && i != j
                    ==> #[trigger] after[i].0 != #[trigger] after[j].0
            &&& forall|i: int|
                entries.len() <= i < after.len() ==> !keys_of(entries).contains(#[trigger] after[i].0)
            &&& forall|i: int| entries.len() <= i < after.len() ==> #[trigger] after[i].2 == at
        }),
    decreases rows.len(),
{
    lemma_marking_keeps_entries(entries, rows, at);
    if rows.len() > 0 {
        let pr = rows.drop_last();
        marking_appends_each_new_key_once(entries, pr, at);
        lemma_marking_keeps_entries(entries, pr, at);
        let prev = after_marking(entries, pr, at);
        let r = rows.last();
        let after = after_marking(entries, rows, at);
        if !keys_of(prev).contains(row_key(r)) {
            let m = prev.len() as int;
            assert forall|i: int| entries.len() <= i < m implies #[trigger] after[i].0 != after[m].0 by {
                assert(keys_of(prev)[i] == prev[i].0);
            }
            assert forall|i: int| 0 <= i < entries.len() implies keys_of(entries)[i] != row_key(r) by {
                assert(prev.take(entries.len() as int)[i] == entries[i]);
                assert(keys_of(prev)[i] == prev[i].0);
            }
        }
    }
}

/// A trail that holds each key once still holds each key once after marking:
/// no key is ever stored twice.
pub proof fn marking_keeps_keys_distinct(
    entries: Seq<(Seq<char>, Seq<char>, Seq<char>)>,
    rows: Seq<PayRow>,
    at: Seq<char>,
)
    requires
        keys_of(entries).no_duplicates(),
    ensures
        keys_of(after_marking(entries, rows, at)).no_duplicates(),
    decreases rows.len(),
{
    if rows.len() > 0 {
        marking_keeps_keys_distinct(entries, rows.drop_last(), at);
        let prev = after_marking(entries, rows.drop_last(), at);
        let r = rows.last();
        if !keys_of(prev).contains(row_key(r)) {
            let x = (row_key(r), r.label@, at);
            lemma_keys_of_push(prev, x);
            let ks = keys_of(prev).push(row_key(r));
            assert forall|i: int, j: int| 0 <= i < ks.len() && 0 <= j < ks.len() && i != j implies ks[i]
                != ks[j] by {
                if i == prev.len() {
                    assert(keys_of(prev)[j] == ks[j]);
                } else if j == prev.len() {
                    assert(keys_of(prev)[i] == ks[i]);
                }
            }
        }
    }
}

proof fn lemma_marking_known_keys(
    entries: Seq<(Seq<char>, Seq<char>, Seq<char>)>,
    rows: Seq<PayRow>,
    at: Seq<char>,
)
    requires
        forall|i: int| 0 <= i < rows.len() ==> keys_of(entries).contains(#[trigger] row_key(rows[i])),
    ensures
        after_marking(entries, rows, at) == entries,
    decreases rows.len(),
{
    if rows.len() > 0 {
        let pr = rows.drop_last();
        assert forall|i: int| 0 <= i < pr.len() implies keys_of(entries).contains(
            #[trigger] row_key(pr[i]),
        ) by {
            assert(pr[i] == rows[i]);
        }
        lemma_marking_known_keys(entries, pr, at);
        assert(keys_of(entries).contains(row_key(rows[rows.len() - 1])));
    }
}

/// Marking the same rows a second time appends nothing.
pub proof fn marking_twice_adds_nothing(
    entries: Seq<(Seq<char>, Seq<char>, Seq<char>)>,
    rows: Seq<PayRow>,
    first: Seq<char>,
    second: Seq<char>,
)
    ensures
        after_marking(after_marking(entries, rows, first), rows, second) == after_marking(
            entries,
            rows,
            first,
        ),
{
    let after = after_marking(entries, rows, first);
    marking_adds_the_row_keys(entries, rows, first);
    assert forall|i: int| 0 <= i < rows.len() implies keys_of(after).contains(
        #[trigger] row_key(rows[i]),
    ) by {
        assert(row_keys(rows)[i] == row_key(rows[i]));
        assert(row_keys(rows).contains(row_key(rows[i])));
    }
    lemma_marking_known_keys(after, rows, second);
}

/// The file the ledger is kept in.
pub open spec fn ledger_file() -> Seq<char> {
    "paid.json"@
}

/// The text of a local time as `%Y-%m-%d %H:%M:%S` writes it: the date as
/// `date_text` gives it, a space, then hours, minutes and seconds in two
/// digits each, separated by colons.
pub open spec fn timestamp_text(d: CalendarDate, h: nat, mi: nat, se: nat) -> Seq<char> {
    date_text(d) + " "@ + zero_padded(h, 2) + ":"@ + zero_padded(mi, 2) + ":"@ + zero_padded(se, 2)
}

/// The text is the timestamp of some date and time of day (a second of 60
/// being a leap second).
pub open spec fn is_timestamp(t: Seq<char>) -> bool {
    exists|d: CalendarDate, h: nat, mi: nat, se: nat|
        is_valid_date(d) && h < 24 && mi < 60 && se <= 60 && t == #[trigger] timestamp_text(
            d,
            h,
            mi,
            se,
        )
}

/// Calls `chrono::Local::now()` and formats it as `%Y-%m-%d %H:%M:%S`. Which
/// time it gives depends on the clock; claimed is only the shape of the text,
/// as chrono documents `%Y`, `%m`, `%d`, `%H`, `%M` and `%S`.
#[verifier::external_body]
fn now_timestamp() -> (r: String)
    ensures
        is_timestamp(r@),
{
    chrono::Local::now().format("%Y-%m-%d %H:%M:%S").to_string()
}

/// The ledger of paid invoices.
pub struct PaidLedger {
    entries: Vec<PaidEntry>,
    file_path: String,
}

impl View for PaidLedger {
    type V = Seq<(Seq<char>, Seq<char>, Seq<char>)>;

    closed spec fn view(&self) -> Seq<(Seq<char>, Seq<char>, Seq<char>)> {
        self.entries@.map_values(|e: PaidEntry| entry_view(e))
    }
}

impl PaidLedger {
    /// The path of the file the ledger is kept in.
    pub closed spec fn path(&self) -> Seq<char> {
        self.file_path@
    }

    /// A ledger holding `entries`, the trail read from its file (empty when
    /// there is none).
    pub fn new(entries: Vec<PaidEntry>) -> (r: PaidLedger)
        ensures
            r@ == entries@.map_values(|e: PaidEntry| entry_view(e)),
            r.path() == ledger_file(),
    {
        PaidLedger { entries, file_path: String::from_str("paid.json") }
    }

    /// The entries, to be written back to the ledger file.
    pub fn entries(&self) -> (r: &Vec<PaidEntry>)
        ensures
            r@.map_values(|e: PaidEntry| entry_view(e)) == self@,
    {
        &self.entries
    }

    /// The path of the file the ledger is kept in.
    pub fn file_path(&self) -> (r: &str)
        ensures
            r@ == self.path(),
    {
        self.file_path.as_str()
    }

    fn has_key(&self, key: &str) -> (r: bool)
        ensures
            r == keys_of(self@).contains(key@),
    {
        let n = self.entries.len();
        let mut i: usize = 0;
        while i < n
            invariant
                n == self.entries@.len(),
                0 <= i <= n,
                forall|j: int| 0 <= j < i ==> keys_of(self@)[j] != key@,
            decreases n - i,
        {
            if same_text(self.entries[i].key.as_str(), key) {
                assert(keys_of(self@)[i as int] == key@);
                return true;
            }
            i = i + 1;
        }
        false
    }

    /// Marks `rows` as paid at time `paid_at`: appends an audit entry for each
    /// row whose key is not in the ledger yet, and returns how many it appended.
    pub fn mark_paid_at(&mut self, rows: &[PayRow], paid_at: &str) -> (r: usize)
        ensures
            final(self)@ == after_marking(old(self)@, rows@, paid_at@),
            r == final(self)@.len() - old(self)@.len(),
            final(self).path() == old(self).path(),
            keys_of(old(self)@).no_duplicates() ==> keys_of(final(self)@).no_duplicates(),
    {
        let ghost e0 = self@;
        let n = rows.len();
        let start = self.entries.len();
        let mut i: usize = 0;
        proof {
            assert(rows@.take(0) =~= Seq::<PayRow>::empty());
        }
        while i < n
            invariant
                n == rows@.len(),
                0 <= i <= n,
                self@ == after_marking(e0, rows@.take(i as int), paid_at@),
                start == e0.len(),
                self.path() == old(self).path(),
            decreases n - i,
        {
            let row = &rows[i];
            let key = row.key();
            proof {
                assert(rows@.take(i + 1).drop_last() =~= rows@.take(i as int));
                assert(rows@.take(i + 1).last() == rows@[i as int]);
            }
            if !self.has_key(key.as_str()) {
                let entry = PaidEntry { key, label: row.label.clone(), paid_at: paid_at.to_owned() };
                let ghost before = self@;
                self.entries.push(entry);
                proof {
                    assert(self@ =~= before.push(entry_view(entry)));
                }
            }
            i = i + 1;
        }
        proof {
            assert(rows@.take(n as int) =~= rows@);
            lemma_marking_keeps_entries(e0, rows@, paid_at@);
            if keys_of(e0).no_duplicates() {
                marking_keeps_keys_distinct(e0, rows@, paid_at@);
            }
        }
        self.entries.len() - start
    }

    /// Marks `rows` as paid now: appends an audit entry, stamped with the
    /// current local time, for each row whose key is not in the ledger yet;
    /// returns how many it appended.
    pub fn mark_paid(&mut self, rows: &[PayRow]) -> (r: usize)
        ensures
            exists|at: Seq<char>|
                is_timestamp(at) && final(self)@ == #[trigger] after_marking(
                    old(self)@,
                    rows@,
                    at,
                ),
            r == final(self)@.len() - old(self)@.len(),
            final(self).path() == old(self).path(),
            keys_of(old(self)@).no_duplicates() ==> keys_of(final(self)@).no_duplicates(),
    {
        let now = now_timestamp();
        self.mark_paid_at(rows, now.as_str())
    }

    /// Answers a request to mark invoices as paid: the rows that name an
    /// invoice number are marked paid now, and the number of entries appended
    /// is returned; nothing, with the ledger unchanged, when no row names one.
    pub fn mark_request(&mut self, req: &PayRequest) -> (r: Option<usize>)
        ensures
            r is None <==> payable(req.rows@).len() == 0,
            r is None ==> final(self)@ == old(self)@,
            r matches Some(n) ==> n == final(self)@.len() - old(self)@.len() && exists|at: Seq<char>|
                is_timestamp(at) && final(self)@ == #[trigger] after_marking(
                    old(self)@,
                    payable(req.rows@),
                    at,
                ),
            final(self).path() == old(self).path(),
            keys_of(old(self)@).no_duplicates() ==> keys_of(final(self)@).no_duplicates(),
    {
        let rows = req.payable_rows();
        if rows.len() == 0 {
            return None;
        }
        Some(self.mark_paid(rows.as_slice()))
    }

    /// Every key in the ledger, each once, in the order they were first paid;
    /// as many as there are entries when no key is stored twice.
    pub fn paid_keys(&self) -> (r: Vec<String>)
        ensures
            r@.map_values(|s: String| s@).no_duplicates(),
            r@.map_values(|s: String| s@).to_set() == keys_of(self@).to_set(),
            keys_of(self@).no_duplicates() ==> r@.len() == self@.len(),
    {
        let mut out: Vec<String> = Vec::new();
        let n = self.entries.len();
        let mut i: usize = 0;
        while i < n
            invariant
                n == self.entries@.len(),
                0 <= i <= n,
                out@.map_values(|s: String| s@).no_duplicates(),
                out@.map_values(|s: String| s@).to_set() == keys_of(self@).take(i as int).to_set(),
            decreases n - i,
        {
            let ghost ov = out@.map_values(|s: String| s@);
            let k = &self.entries[i].key;
            let mut found = false;
            let mut j: usize = 0;
            while j < out.len()
                invariant
                    0 <= j <= out@.len(),
                    ov == out@.map_values(|s: String| s@),
                    !found ==> forall|a: int| 0 <= a < j ==> ov[a] != k@,
                    found ==> ov.contains(k@),
                decreases out@.len() - j,
            {
                if same_text(out[j].as_str(), k.as_str()) {
                    found = true;
                    assert(ov[j as int] == k@);
                }
                j = j + 1;
            }
            if !found {
                out.push(k.clone());
                proof {
                    let nv = out@.map_values(|s: String| s@);
                    assert(nv =~= ov.push(k@));
                    assert forall|a: int, b: int|
                        0 <= a < nv.len() && 0 <= b < nv.len() && a != b implies nv[a] != nv[b] by {
                        if a < ov.len() && b < ov.len() {
                        } else if a < ov.len() {
                            assert(ov.contains(nv[a]));
                        } else {
                            assert(ov.contains(nv[b]));
                        }
                    }
                }
            }
            proof {
                let nv = out@.map_values(|s: String| s@);
                let kt = keys_of(self@).take(i + 1);
                assert(kt =~= keys_of(self@).take(i as int).push(k@));
                assert(keys_of(self@)[i as int] == k@);
                Seq::<Seq<char>>::lemma_to_set_insert_commutes(keys_of(self@).take(i as int), k@);
                assert(kt =~= keys_of(self@).take(i as int) + seq![k@]);
                if !found {
                    Seq::<Seq<char>>::lemma_to_set_insert_commutes(ov, k@);
                    assert(nv =~= ov + seq![k@]);
                    assert(nv.to_set() =~= kt.to_set());
                } else {
                    assert(ov.to_set().contains(k@));
                    assert(kt.to_set() =~= ov.to_set().insert(k@));
                    assert(nv.to_set() =~= kt.to_set());
                }
            }
            i = i + 1;
        }
        proof {
            assert(keys_of(self@).take(n as int) =~= keys_of(self@));
            let ov = out@.map_values(|s: String| s@);
            ov.unique_seq_to_set();
            if keys_of(self@).no_duplicates() {
                keys_of(self@).unique_seq_to_set();
            }
        }
        out
    }

    /// Number of entries in the ledger.
    pub fn count(&self) -> (r: usize)
        ensures
            r == self@.len(),
    {
        self.entries.len()
    }
}

} // verus!
