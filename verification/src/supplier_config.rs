//! Supplier payment terms: the terms of each supplier, merging with the live
//! supplier list, saving edits, and the due date of an invoice.

use vstd::prelude::*;

use crate::calendar::{
    date_before, date_from_ymd, days_before_month, days_before_year, days_in_month, date_with_day_number, date_with_own_day_number, date_plus_days, date_to_text, date_text, day_number, is_valid_date,
    is_before, day_number_follows_calendar, day_number_identifies_date, date_texts_follow_calendar,
    text_le, last_day_of_month, last_representable_date, max_year,
    parse_date_with,
    parse_datetime_date_with, date_parsed, datetime_date_parsed, CalendarDate,
};
use crate::db::Supplier;
use crate::text::{all_ascii, ascii_lower, lower, lower_text, same_text, trim, trimmed};

verus! {

/// Payment term types.
#[derive(Debug, Clone, Copy, PartialEq, Eq, Structural)]
pub enum TermType {
    Eom,
    NetDays,
}

impl Default for TermType {
    fn default() -> (r: Self)
        ensures
            r == TermType::Eom,
    {
        TermType::Eom
    }
}

/// Order fulfilment frequency.
#[derive(Debug, Clone, Copy, PartialEq, Eq, Structural)]
pub enum OrderType {
    Weekly,
    Monthly,
}

impl Default for OrderType {
    fn default() -> (r: Self)
        ensures
            r == OrderType::Monthly,
    {
        OrderType::Monthly
    }
}

/// Supplier payment method.
#[derive(Debug, Clone, Copy, PartialEq, Eq, Structural)]
pub enum PaymentType {
    DirectCredit,
    DirectDebit,
}

impl Default for PaymentType {
    fn default() -> (r: Self)
        ensures
            r == PaymentType::DirectCredit,
    {
        PaymentType::DirectCredit
    }
}

/// Payment terms for a single supplier, as stored in the config file.
#[derive(Debug, Clone, Copy, PartialEq, Eq, Structural)]
pub struct TermConfig {
    pub term_type: TermType,
    pub term_days: u16,
    pub order_type: OrderType,
    pub payment_type: PaymentType,
    pub configured: bool,
}

/// The number of days a term has when none is given.
pub fn default_days() -> (r: u16)
    ensures
        r == 20,
{
    20
}

/// The terms of a supplier nobody has configured yet: end of month plus 20
/// days, monthly orders, direct credit.
pub open spec fn default_terms() -> TermConfig {
    TermConfig {
        term_type: TermType::Eom,
        term_days: 20,
        order_type: OrderType::Monthly,
        payment_type: PaymentType::DirectCredit,
        configured: false,
    }
}

/// The terms that apply to `code` under the configuration `m`.
pub open spec fn terms_for(m: Map<Seq<char>, TermConfig>, code: Seq<char>) -> TermConfig {
    if m.contains_key(code) {
        m[code]
    } else {
        default_terms()
    }
}

fn unconfigured_terms() -> (r: TermConfig)
    ensures
        r == default_terms(),
{
    TermConfig {
        term_type: TermType::Eom,
        term_days: 20,
        order_type: OrderType::Monthly,
        payment_type: PaymentType::DirectCredit,
        configured: false,
    }
}

// ── Text forms of the term fields ─────────────────────────────────

pub open spec fn term_type_from_text(s: Seq<char>) -> TermType {
    if lower_text(s) == "netdays"@ {
        TermType::NetDays
    } else {
        TermType::Eom
    }
}

pub open spec fn order_type_from_text(s: Seq<char>) -> OrderType {
    if lower_text(s) == "weekly"@ {
        OrderType::Weekly
    } else {
        OrderType::Monthly
    }
}

pub open spec fn payment_type_from_text(s: Seq<char>) -> PaymentType {
    if lower_text(s) == "dd"@ {
        PaymentType::DirectDebit
    } else {
        PaymentType::DirectCredit
    }
}

pub open spec fn term_type_label(t: TermType) -> Seq<char> {
    match t {
        TermType::Eom => "EOM"@,
        TermType::NetDays => "NetDays"@,
    }
}

pub open spec fn order_type_label(t: OrderType) -> Seq<char> {
    match t {
        OrderType::Weekly => "Weekly"@,
        OrderType::Monthly => "Monthly"@,
    }
}

pub open spec fn payment_type_label(t: PaymentType) -> Seq<char> {
    match t {
        PaymentType::DirectCredit => "DC"@,
        PaymentType::DirectDebit => "DD"@,
    }
}

/// The terms an edit from the settings page stores: the texts read case
/// insensitively, unknown texts falling back to the defaults, and the supplier
/// marked as configured.
pub open spec fn edited_terms(
    term_type: Seq<char>,
    term_days: u16,
    order_type: Seq<char>,
    payment_type: Seq<char>,
) -> TermConfig {
    TermConfig {
        term_type: term_type_from_text(term_type),
        term_days,
        order_type: order_type_from_text(order_type),
        payment_type: payment_type_from_text(payment_type),
        configured: true,
    }
}

impl TermType {
    /// Reads a term type from the settings page: `NetDays` in any case, else EOM.
    pub fn from_text(s: &str) -> (r: TermType)
        ensures
            r == term_type_from_text(s@),
    {
        let l = lower(s);
        if same_text(l.as_str(), "netdays") {
            TermType::NetDays
        } else {
            TermType::Eom
        }
    }

    /// The text shown for a term type.
    pub fn label(&self) -> (r: String)
        ensures
            r@ == term_type_label(*self),
    {
        match self {
            TermType::Eom => String::from_str("EOM"),
            TermType::NetDays => String::from_str("NetDays"),
        }
    }
}

impl OrderType {
    /// Reads an order type: `Weekly` in any case, else monthly.
    pub fn from_text(s: &str) -> (r: OrderType)
        ensures
            r == order_type_from_text(s@),
    {
        let l = lower(s);
        if same_text(l.as_str(), "weekly") {
            OrderType::Weekly
        } else {
            OrderType::Monthly
        }
    }

    /// The text shown for an order type.
    pub fn label(&self) -> (r: String)
        ensures
            r@ == order_type_label(*self),
    {
        match self {
            OrderType::Weekly => String::from_str("Weekly"),
            OrderType::Monthly => String::from_str("Monthly"),
        }
    }
}

impl PaymentType {
    /// Reads a payment type: `DD` in any case, else direct credit.
    pub fn from_text(s: &str) -> (r: PaymentType)
        ensures
            r == payment_type_from_text(s@),
    {
        let l = lower(s);
        if same_text(l.as_str(), "dd") {
            PaymentType::DirectDebit
        } else {
            PaymentType::DirectCredit
        }
    }

    /// The text shown for a payment type.
    pub fn label(&self) -> (r: String)
        ensures
            r@ == payment_type_label(*self),
    {
        match self {
            PaymentType::DirectCredit => String::from_str("DC"),
            PaymentType::DirectDebit => String::from_str("DD"),
        }
    }
}

impl TermConfig {
    /// The terms stored by an edit from the settings page.
    pub fn from_edit(term_type: &str, term_days: u16, order_type: &str, payment_type: &str) -> (r:
        TermConfig)
        ensures
            r == edited_terms(term_type@, term_days, order_type@, payment_type@),
    {
        TermConfig {
            term_type: TermType::from_text(term_type),
            term_days,
            order_type: OrderType::from_text(order_type),
            payment_type: PaymentType::from_text(payment_type),
            configured: true,
        }
    }
}

// ── The configuration: terms by supplier code ─────────────────────

/// The supplier codes of a list of (code, terms) pairs.
pub open spec fn pair_keys(s: Seq<(String, TermConfig)>) -> Seq<Seq<char>> {
    s.map_values(|p: (String, TermConfig)| p.0@)
}

/// The map that a list of (code, terms) pairs with distinct codes stands for.
pub open spec fn map_of_pairs(s: Seq<(String, TermConfig)>) -> Map<Seq<char>, TermConfig> {
    Map::new(
        |k: Seq<char>| pair_keys(s).contains(k),
        |k: Seq<char>| s[pair_keys(s).index_of(k)].1,
    )
}

/// The map obtained from `m` by inserting the pairs of `s` in order, a later
/// pair for a code replacing an earlier one.
pub open spec fn inserted_all(m: Map<Seq<char>, TermConfig>, s: Seq<(String, TermConfig)>) -> Map<
    Seq<char>,
    TermConfig,
>
    decreases s.len(),
{
    if s.len() == 0 {
        m
    } else {
        inserted_all(m, s.drop_last()).insert(s.last().0@, s.last().1)
    }
}

proof fn lemma_index_of_distinct(keys: Seq<Seq<char>>, i: int)
    requires
        keys.no_duplicates(),
        0 <= i < keys.len(),
    ensures
        keys.index_of(keys[i]) == i,
{
    assert(keys.contains(keys[i]));
}

/// Pairs with distinct codes stand for the map that inserting them one by one
/// into the empty map gives.
proof fn lemma_map_of_pairs_inserted(s: Seq<(String, TermConfig)>)
    requires
        pair_keys(s).no_duplicates(),
    ensures
        map_of_pairs(s) == inserted_all(Map::empty(), s),
    decreases s.len(),
{
    if s.len() == 0 {
        assert(map_of_pairs(s) =~= Map::empty());
    } else {
        let p = s.drop_last();
        assert(pair_keys(p) =~= pair_keys(s).drop_last());
        lemma_map_of_pairs_inserted(p);
        let last = s.last();
        let ks = pair_keys(s);
        let n = s.len() - 1;
        assert forall|k: Seq<char>| #[trigger]
            map_of_pairs(s).contains_key(k) == map_of_pairs(p).insert(last.0@, last.1).contains_key(k)
            by {
            if ks.contains(k) {
                let j = ks.index_of(k);
                if j < n {
                    assert(pair_keys(p)[j] == k);
                }
            }
            if pair_keys(p).contains(k) {
                let j = pair_keys(p).index_of(k);
                assert(ks[j] == k);
            }
            if k == last.0@ {
                assert(ks[n] == k);
            }
        }
        assert forall|k: Seq<char>| #[trigger] map_of_pairs(s).contains_key(k) implies map_of_pairs(
            s,
        )[k] == map_of_pairs(p).insert(last.0@, last.1)[k] by {
            let j = ks.index_of(k);
            lemma_index_of_distinct(ks, j);
            if k == last.0@ {
                lemma_index_of_distinct(ks, n);
            } else {
                assert(j < n);
                lemma_index_of_distinct(pair_keys(p), j);
            }
        }
        assert(map_of_pairs(s) =~= map_of_pairs(p).insert(last.0@, last.1));
    }
}

/// The payment terms of every supplier in the configuration file, by supplier
/// code. No code occurs twice.
pub struct SupplierConfigMap {
    entries: Vec<(String, TermConfig)>,
}

impl View for SupplierConfigMap {
    type V = Map<Seq<char>, TermConfig>;

    closed spec fn view(&self) -> Map<Seq<char>, TermConfig> {
        map_of_pairs(self.entries@)
    }
}

impl SupplierConfigMap {
    #[verifier::type_invariant]
    spec fn codes_distinct(&self) -> bool {
        pair_keys(self.entries@).no_duplicates()
    }

    /// An empty configuration.
    pub fn new() -> (r: SupplierConfigMap)
        ensures
            r@ == Map::<Seq<char>, TermConfig>::empty(),
    {
        let r = SupplierConfigMap { entries: Vec::new() };
        assert(r@ =~= Map::<Seq<char>, TermConfig>::empty());
        r
    }

    fn find_index(&self, code: &str) -> (r: Option<usize>)
        ensures
            match r {
                Some(i) => i < self.entries@.len() && pair_keys(self.entries@)[i as int] == code@,
                None => !pair_keys(self.entries@).contains(code@),
            },
    {
        let mut i: usize = 0;
        while i < self.entries.len()
            invariant
                0 <= i <= self.entries@.len(),
                forall|j: int| 0 <= j < i ==> pair_keys(self.entries@)[j] != code@,
            decreases self.entries@.len() - i,
        {
            if same_text(self.entries[i].0.as_str(), code) {
                return Some(i);
            }
            i = i + 1;
        }
        None
    }

    /// Whether the configuration holds terms for `code`.
    pub fn contains_key(&self, code: &str) -> (r: bool)
        ensures
            r == self@.contains_key(code@),
    {
        match self.find_index(code) {
            Some(i) => {
                assert(pair_keys(self.entries@)[i as int] == code@);
                true
            },
            None => false,
        }
    }

    /// The terms stored for `code`, if any.
    pub fn get(&self, code: &str) -> (r: Option<TermConfig>)
        ensures
            r == (if self@.contains_key(code@) {
                Some(self@[code@])
            } else {
                None::<TermConfig>
            }),
    {
        proof {
            use_type_invariant(self);
        }
        match self.find_index(code) {
            Some(i) => {
                proof {
                    lemma_index_of_distinct(pair_keys(self.entries@), i as int);
                }
                Some(self.entries[i].1)
            },
            None => None,
        }
    }

    /// Stores `terms` for `code`, replacing what was stored for it.
    pub fn insert(&mut self, code: String, terms: TermConfig)
        ensures
            final(self)@ == old(self)@.insert(code@, terms),
    {
        proof {
            use_type_invariant(&*self);
        }
        let ghost old_entries = self.entries@;
        let ghost ks = pair_keys(old_entries);
        match self.find_index(code.as_str()) {
            Some(i) => {
                let ghost new_entries = old_entries.update(i as int, (code, terms));
                proof {
                    assert(pair_keys(new_entries) =~= ks);
                }
                let mut entries: Vec<(String, TermConfig)> = Vec::new();
                std::mem::swap(&mut entries, &mut self.entries);
                entries.set(i, (code, terms));
                self.entries = entries;
                proof {
                    assert(self.entries@ == new_entries);
                    let m = old_entries;
                    assert forall|k: Seq<char>| #[trigger]
                        map_of_pairs(new_entries).contains_key(k) implies map_of_pairs(
                        new_entries,
                    )[k] == map_of_pairs(m).insert(code@, terms)[k] by {
                        let j = ks.index_of(k);
                        lemma_index_of_distinct(ks, j);
                        lemma_index_of_distinct(ks, i as int);
                    }
                    assert(map_of_pairs(new_entries) =~= map_of_pairs(m).insert(code@, terms));
                }
            },
            None => {
                let ghost new_entries = old_entries.push((code, terms));
                let ghost nks = pair_keys(new_entries);
                proof {
                    assert(nks =~= ks.push(code@));
                    assert forall|a: int, b: int|
                        0 <= a < nks.len() && 0 <= b < nks.len() && a != b implies nks[a]
                        != nks[b] by {
                        if a < ks.len() && b < ks.len() {
                        } else if a < ks.len() {
                            assert(ks.contains(nks[a]));
                        } else {
                            assert(ks.contains(nks[b]));
                        }
                    }
                }
                let mut entries: Vec<(String, TermConfig)> = Vec::new();
                std::mem::swap(&mut entries, &mut self.entries);
                entries.push((code, terms));
                self.entries = entries;
                proof {
                    let n = ks.len() as int;
                    assert forall|k: Seq<char>| #[trigger]
                        map_of_pairs(new_entries).contains_key(k) == map_of_pairs(
                            old_entries,
                        ).insert(code@, terms).contains_key(k) by {
                        if nks.contains(k) {
                            let j = nks.index_of(k);
                            if j < n {
                                assert(ks[j] == k);
                            }
                        }
                        if ks.contains(k) {
                            let j = ks.index_of(k);
                            assert(nks[j] == k);
                        }
                        if k == code@ {
                            assert(nks[n] == k);
                        }
                    }
                    assert forall|k: Seq<char>| #[trigger]
                        map_of_pairs(new_entries).contains_key(k) implies map_of_pairs(
                        new_entries,
                    )[k] == map_of_pairs(old_entries).insert(code@, terms)[k] by {
                        let j = nks.index_of(k);
                        lemma_index_of_distinct(nks, j);
                        if k == code@ {
                            lemma_index_of_distinct(nks, n);
                        } else {
                            lemma_index_of_distinct(ks, j);
                        }
                    }
                    assert(map_of_pairs(new_entries) =~= map_of_pairs(old_entries).insert(
                        code@,
                        terms,
                    ));
                }
            },
        }
    }

    /// The number of suppliers in the configuration, which is finite.
    pub fn len(&self) -> (r: usize)
        ensures
            self@.dom().finite(),
            r == self@.len(),
    {
        proof {
            use_type_invariant(self);
            let ks = pair_keys(self.entries@);
            ks.unique_seq_to_set();
            assert(self@.dom() =~= ks.to_set());
        }
        self.entries.len()
    }

    /// The (code, terms) pairs of the configuration, each code once; inserting
    /// them one by one into an empty map gives the configuration back.
    pub fn pairs(&self) -> (r: &Vec<(String, TermConfig)>)
        ensures
            pair_keys(r@).no_duplicates(),
            inserted_all(Map::empty(), r@) == self@,
    {
        proof {
            use_type_invariant(self);
            lemma_map_of_pairs_inserted(self.entries@);
        }
        &self.entries
    }

    /// The configuration that inserting `pairs` in order into an empty one
    /// gives: a later pair for a code replaces an earlier one.
    pub fn from_pairs(pairs: Vec<(String, TermConfig)>) -> (r: SupplierConfigMap)
        ensures
            r@ == inserted_all(Map::empty(), pairs@),
    {
        let mut r = SupplierConfigMap::new();
        let n = pairs.len();
        let mut i: usize = 0;
        while i < n
            invariant
                n == pairs@.len(),
                0 <= i <= n,
                r@ == inserted_all(Map::empty(), pairs@.subrange(0, i as int)),
            decreases n - i,
        {
            let (code, terms) = (pairs[i].0.clone(), pairs[i].1);
            r.insert(code, terms);
            proof {
                let s = pairs@.subrange(0, i + 1);
                assert(s.drop_last() =~= pairs@.subrange(0, i as int));
            }
            i = i + 1;
        }
        proof {
            assert(pairs@.subrange(0, n as int) =~= pairs@);
        }
        r
    }
}

// ── Merging, editing and reading the configuration ───────────────

/// The supplier codes of a supplier list.
pub open spec fn supplier_codes(s: Seq<Supplier>) -> Seq<Seq<char>> {
    s.map_values(|x: Supplier| x.code@)
}

/// The configuration `m` completed with default terms for every code of
/// `codes` that has none; terms already present are kept.
pub open spec fn with_defaults_for(m: Map<Seq<char>, TermConfig>, codes: Seq<Seq<char>>) -> Map<
    Seq<char>,
    TermConfig,
> {
    Map::new(
        |k: Seq<char>| m.contains_key(k) || codes.contains(k),
        |k: Seq<char>|
            if m.contains_key(k) {
                m[k]
            } else {
                default_terms()
            },
    )
}

impl SupplierConfigMap {
    /// Adds default (unconfigured) terms for every supplier that has none;
    /// suppliers already present keep their terms.
    pub fn add_missing(&mut self, suppliers: &[Supplier])
        ensures
            final(self)@ == with_defaults_for(old(self)@, supplier_codes(suppliers@)),
    {
        let ghost m0 = self@;
        let n = suppliers.len();
        let mut i: usize = 0;
        proof {
            assert(m0 =~= with_defaults_for(m0, supplier_codes(suppliers@).take(0)));
        }
        while i < n
            invariant
                n == suppliers@.len(),
                0 <= i <= n,
                self@ == with_defaults_for(m0, supplier_codes(suppliers@).take(i as int)),
            decreases n - i,
        {
            let ghost before = self@;
            let ghost codes = supplier_codes(suppliers@);
            if !self.contains_key(suppliers[i].code.as_str()) {
                self.insert(suppliers[i].code.clone(), unconfigured_terms());
            }
            proof {
                let t = codes.take(i + 1);
                let c = codes[i as int];
                assert(t =~= codes.take(i as int).push(c));
                assert forall|k: Seq<char>| t.contains(k) <==> codes.take(i as int).contains(k) || k == c by {
                    if t.contains(k) {
                        let j = t.index_of(k);
                        if j < i {
                            assert(codes.take(i as int)[j] == k);
                        }
                    }
                    if codes.take(i as int).contains(k) {
                        let j = codes.take(i as int).index_of(k);
                        assert(t[j] == k);
                    }
                    if k == c {
                        assert(t[i as int] == k);
                    }
                }
                assert(self@ =~= with_defaults_for(m0, t));
            }
            i = i + 1;
        }
        proof {
            assert(supplier_codes(suppliers@).take(n as int) =~= supplier_codes(suppliers@));
        }
    }
}

/// A supplier's configuration as the settings page shows it (with its label).
#[derive(Debug)]
pub struct SupplierConfigEntry {
    pub code: String,
    pub label: String,
    pub term_type: String,
    pub term_days: u16,
    pub order_type: String,
    pub payment_type: String,
    pub configured: bool,
}

/// `e` shows supplier `s` with the terms `t`.
pub open spec fn entry_shows(e: SupplierConfigEntry, s: Supplier, t: TermConfig) -> bool {
    &&& e.code@ == s.code@
    &&& e.label@ == s.label@
    &&& e.term_type@ == term_type_label(t.term_type)
    &&& e.term_days == t.term_days
    &&& e.order_type@ == order_type_label(t.order_type)
    &&& e.payment_type@ == payment_type_label(t.payment_type)
    &&& e.configured == t.configured
}

/// The configuration after the edits of `entries`, applied in order.
pub open spec fn with_edits(m: Map<Seq<char>, TermConfig>, entries: Seq<SupplierConfigEntry>) -> Map<
    Seq<char>,
    TermConfig,
>
    decreases entries.len(),
{
    if entries.len() == 0 {
        m
    } else {
        let e = entries.last();
        with_edits(m, entries.drop_last()).insert(
            e.code@,
            edited_terms(e.term_type@, e.term_days, e.order_type@, e.payment_type@),
        )
    }
}

/// The file the supplier configuration is kept in.
pub open spec fn supplier_config_file() -> Seq<char> {
    "suppliers-config.toml"@
}

/// The supplier payment-terms configuration of the application.
pub struct SupplierConfigManager {
    config_map: SupplierConfigMap,
    file_path: String,
}

impl View for SupplierConfigManager {
    type V = Map<Seq<char>, TermConfig>;

    closed spec fn view(&self) -> Map<Seq<char>, TermConfig> {
        self.config_map@
    }
}

impl SupplierConfigManager {
    /// The path of the file the configuration is kept in.
    pub closed spec fn path(&self) -> Seq<char> {
        self.file_path@
    }

    /// The configuration loaded from the file (`existing`) merged with the
    /// live supplier list: new suppliers get default terms, suppliers already
    /// configured keep theirs.
    pub fn new(existing: SupplierConfigMap, db_suppliers: &[Supplier]) -> (r: SupplierConfigManager)
        ensures
            r@ == with_defaults_for(existing@, supplier_codes(db_suppliers@)),
            r.path() == supplier_config_file(),
    {
        let mut config_map = existing;
        config_map.add_missing(db_suppliers);
        SupplierConfigManager {
            config_map,
            file_path: String::from_str("suppliers-config.toml"),
        }
    }

    /// The configuration, to be written back to its file.
    pub fn config_map(&self) -> (r: &SupplierConfigMap)
        ensures
            r@ == self@,
    {
        &self.config_map
    }

    /// The path of the file the configuration is kept in.
    pub fn file_path(&self) -> (r: &str)
        ensures
            r@ == self.path(),
    {
        self.file_path.as_str()
    }

    /// Stores the edited terms of every entry, in order; each edited supplier
    /// becomes configured.
    pub fn save_all(&mut self, entries: &[SupplierConfigEntry])
        ensures
            final(self)@ == with_edits(old(self)@, entries@),
            final(self).path() == old(self).path(),
    {
        let ghost m0 = self@;
        let n = entries.len();
        let mut i: usize = 0;
        proof {
            assert(entries@.take(0) =~= Seq::<SupplierConfigEntry>::empty());
        }
        while i < n
            invariant
                n == entries@.len(),
                0 <= i <= n,
                self@ == with_edits(m0, entries@.take(i as int)),
                self.path() == old(self).path(),
            decreases n - i,
        {
            let e = &entries[i];
            let terms = TermConfig::from_edit(
                e.term_type.as_str(),
                e.term_days,
                e.order_type.as_str(),
                e.payment_type.as_str(),
            );
            self.config_map.insert(e.code.clone(), terms);
            proof {
                assert(entries@.take(i + 1).drop_last() =~= entries@.take(i as int));
            }
            i = i + 1;
        }
        proof {
            assert(entries@.take(n as int) =~= entries@);
        }
    }

    /// Stores one supplier's edited terms; the supplier becomes configured.
    pub fn save_one(
        &mut self,
        code: &str,
        term_type: &str,
        term_days: u16,
        order_type: &str,
        payment_type: &str,
    )
        ensures
            final(self)@ == old(self)@.insert(
                code@,
                edited_terms(term_type@, term_days, order_type@, payment_type@),
            ),
            final(self).path() == old(self).path(),
    {
        let terms = TermConfig::from_edit(term_type, term_days, order_type, payment_type);
        self.config_map.insert(code.to_owned(), terms);
    }

    /// Every supplier of the list, in order, with its terms (the default terms,
    /// shown as not configured, for a supplier without any).
    pub fn get_all_entries(&self, db_suppliers: &[Supplier]) -> (r: Vec<SupplierConfigEntry>)
        ensures
            r@.len() == db_suppliers@.len(),
            forall|i: int|
                0 <= i < r@.len() ==> entry_shows(
                    #[trigger] r@[i],
                    db_suppliers@[i],
                    terms_for(self@, db_suppliers@[i].code@),
                ),
    {
        let mut out: Vec<SupplierConfigEntry> = Vec::new();
        let n = db_suppliers.len();
        let mut i: usize = 0;
        while i < n
            invariant
                n == db_suppliers@.len(),
                0 <= i <= n,
                out@.len() == i,
                forall|j: int|
                    0 <= j < i ==> entry_shows(
                        #[trigger] out@[j],
                        db_suppliers@[j],
                        terms_for(self@, db_suppliers@[j].code@),
                    ),
            decreases n - i,
        {
            let s = &db_suppliers[i];
            let t = match self.config_map.get(s.code.as_str()) {
                Some(c) => c,
                None => unconfigured_terms(),
            };
            out.push(
                SupplierConfigEntry {
                    code: s.code.clone(),
                    label: s.label.clone(),
                    term_type: t.term_type.label(),
                    term_days: t.term_days,
                    order_type: t.order_type.label(),
                    payment_type: t.payment_type.label(),
                    configured: t.configured,
                },
            );
            i = i + 1;
        }
        out
    }

    /// The number of suppliers in the configuration, which is finite.
    pub fn count(&self) -> (r: usize)
        ensures
            self@.dom().finite(),
            r == self@.len(),
    {
        self.config_map.len()
    }
}

// ── Due dates ─────────────────────────────────────────────────────

/// The date a term counts its days from: the last day of the invoice's month
/// for end-of-month terms (the invoice date itself when the next month is past
/// the last representable year), the invoice date for net-days terms.
pub open spec fn due_base(terms: TermConfig, invoice: CalendarDate) -> CalendarDate {
    match terms.term_type {
        TermType::Eom => if invoice.year == max_year() && invoice.month == 12 {
            invoice
        } else {
            last_day_of_month(invoice)
        },
        TermType::NetDays => invoice,
    }
}

/// The day number of the due date of an invoice dated `invoice` under `terms`.
pub open spec fn due_day_number(terms: TermConfig, invoice: CalendarDate) -> int {
    day_number(due_base(terms, invoice)) + terms.term_days
}

/// The due date can be represented.
pub open spec fn due_in_range(terms: TermConfig, invoice: CalendarDate) -> bool {
    due_day_number(terms, invoice) <= day_number(last_representable_date())
}

/// The invoice date read from the text of the database: the first of
/// `%Y-%m-%d %H:%M:%S%.f`, `%Y-%m-%d`, `%d/%m/%Y`, `%m/%d/%Y` that parses the
/// trimmed text.
pub open spec fn invoice_date_parsed(s: Seq<char>) -> Option<CalendarDate> {
    let t = trimmed(s);
    if datetime_date_parsed(t, "%Y-%m-%d %H:%M:%S%.f"@) is Some {
        datetime_date_parsed(t, "%Y-%m-%d %H:%M:%S%.f"@)
    } else if date_parsed(t, "%Y-%m-%d"@) is Some {
        date_parsed(t, "%Y-%m-%d"@)
    } else if date_parsed(t, "%d/%m/%Y"@) is Some {
        date_parsed(t, "%d/%m/%Y"@)
    } else {
        date_parsed(t, "%m/%d/%Y"@)
    }
}

/// The text `calculate_due_date` gives when there is no due date to show.
pub open spec fn no_due_date_text() -> Seq<char> {
    "???"@
}

/// The due date of an invoice dated `invoice` under `terms`, if representable.
pub open spec fn due_date_of(terms: TermConfig, invoice: CalendarDate) -> Option<CalendarDate> {
    if due_in_range(terms, invoice) {
        Some(date_with_day_number(due_day_number(terms, invoice)))
    } else {
        None
    }
}

/// The text shown as the due date of an invoice whose date text was read as
/// `parsed`, under `terms`.
pub open spec fn due_date_text(terms: TermConfig, parsed: Option<CalendarDate>) -> Seq<char> {
    match parsed {
        None => no_due_date_text(),
        Some(inv) => match due_date_of(terms, inv) {
            Some(x) => date_text(x),
            None => no_due_date_text(),
        },
    }
}

/// The due date of an invoice dated `invoice` under `terms`: `term_days` days
/// after the last day of the invoice's month (EOM) or after the invoice date
/// (net days). Nothing when that day is past the last representable date.
pub fn due_date(terms: TermConfig, invoice: CalendarDate) -> (r: Option<CalendarDate>)
    requires
        is_valid_date(invoice),
    ensures
        r == due_date_of(terms, invoice),
        r matches Some(x) ==> is_valid_date(x) && day_number(x) == due_day_number(terms, invoice),
{
    let base = match terms.term_type {
        TermType::Eom => {
            let next_month = if invoice.month == 12 {
                date_from_ymd(invoice.year + 1, 1, 1)
            } else {
                date_from_ymd(invoice.year, invoice.month + 1, 1)
            };
            match next_month {
                Some(nd) => match date_before(nd) {
                    Some(eom) => eom,
                    None => invoice,
                },
                None => invoice,
            }
        },
        TermType::NetDays => invoice,
    };
    proof {
        assert(base == due_base(terms, invoice));
    }
    let r = date_plus_days(base, terms.term_days);
    proof {
        if let Some(x) = r {
            date_with_own_day_number(x);
        }
    }
    r
}

impl SupplierConfigManager {
    fn parse_date(s: &str) -> (r: Option<CalendarDate>)
        ensures
            r == invoice_date_parsed(s@),
            r matches Some(d) ==> is_valid_date(d),
    {
        let t = trim(s);
        if let Some(d) = parse_datetime_date_with(t, "%Y-%m-%d %H:%M:%S%.f") {
            return Some(d);
        }
        if let Some(d) = parse_date_with(t, "%Y-%m-%d") {
            return Some(d);
        }
        if let Some(d) = parse_date_with(t, "%d/%m/%Y") {
            return Some(d);
        }
        if let Some(d) = parse_date_with(t, "%m/%d/%Y") {
            return Some(d);
        }
        None
    }

    /// The due date, as `%Y-%m-%d` text, of an invoice of `supplier_code`
    /// whose date is the text `invoice_date_str`, under the supplier's terms
    /// (the default terms for a supplier without any); `???` when the date
    /// cannot be read or the due date is past the last representable date.
    pub fn calculate_due_date(&self, supplier_code: &str, invoice_date_str: &str) -> (r: String)
        ensures
            r@ == due_date_text(
                terms_for(self@, supplier_code@),
                invoice_date_parsed(invoice_date_str@),
            ),
    {
        let cfg = match self.config_map.get(supplier_code) {
            Some(c) => c,
            None => unconfigured_terms(),
        };
        let inv_date = match Self::parse_date(invoice_date_str) {
            Some(d) => d,
            None => return String::from_str("???"),
        };
        match due_date(cfg, inv_date) {
            Some(due) => date_to_text(due),
            None => String::from_str("???"),
        }
    }
}

impl SupplierConfigManager {
    /// The due dates of a list of invoices, each given as its supplier code
    /// and its date text: for each, in order, what `calculate_due_date` gives.
    pub fn calculate_due_dates(&self, invoices: &[(String, String)]) -> (r: Vec<String>)
        ensures
            r@.len() == invoices@.len(),
            forall|i: int|
                0 <= i < invoices@.len() ==> #[trigger] r@[i]@ == due_date_text(
                    terms_for(self@, invoices@[i].0@),
                    invoice_date_parsed(invoices@[i].1@),
                ),
    {
        let mut out: Vec<String> = Vec::new();
        let n = invoices.len();
        let mut i: usize = 0;
        while i < n
            invariant
                n == invoices@.len(),
                0 <= i <= n,
                out@.len() == i,
                forall|j: int|
                    0 <= j < i ==> #[trigger] out@[j]@ == due_date_text(
                        terms_for(self@, invoices@[j].0@),
                        invoice_date_parsed(invoices@[j].1@),
                    ),
            decreases n - i,
        {
            let (code, date) = &invoices[i];
            out.push(self.calculate_due_date(code.as_str(), date.as_str()));
            i = i + 1;
        }
        out
    }
}

// ── Laws ──────────────────────────────────────────────────────────

/// Net-days terms: the due date is the invoice date plus the term's days.
pub proof fn net_days_due_date(terms: TermConfig, invoice: CalendarDate)
    requires
        terms.term_type == TermType::NetDays,
    ensures
        due_day_number(terms, invoice) == day_number(invoice) + terms.term_days,
{
}

/// End-of-month terms: the due date is the last day of the invoice's month plus
/// the term's days (below the last representable year's December).
pub proof fn end_of_month_due_date(terms: TermConfig, invoice: CalendarDate)
    requires
        terms.term_type == TermType::Eom,
        is_valid_date(invoice),
        !(invoice.year == max_year() && invoice.month == 12),
    ensures
        due_day_number(terms, invoice) == day_number(last_day_of_month(invoice)) + terms.term_days,
        is_valid_date(last_day_of_month(invoice)),
{
}

/// A due date never falls before the invoice date plus the term's days.
pub proof fn due_date_not_before_net_days(terms: TermConfig, invoice: CalendarDate)
    requires
        is_valid_date(invoice),
    ensures
        due_day_number(terms, invoice) >= day_number(invoice) + terms.term_days,
{
}

/// The base date of a term follows the order of invoice dates.
proof fn lemma_due_base_follows_invoices(terms: TermConfig, a: CalendarDate, b: CalendarDate)
    requires
        is_valid_date(a),
        is_valid_date(b),
        day_number(a) <= day_number(b),
    ensures
        day_number(due_base(terms, a)) <= day_number(due_base(terms, b)),
{
    if a == b || terms.term_type == TermType::NetDays {
        return;
    }
    if !is_before(a, b) {
        // a and b differ, so one comes before the other, and it is not b
        if is_before(b, a) {
            day_number_follows_calendar(b, a);
        } else {
            assert(a == b);
        }
    }
    assert(is_before(a, b));
    let (ea, eb) = (last_day_of_month(a), last_day_of_month(b));
    let last_month = |d: CalendarDate| d.year == max_year() && d.month == 12;
    if a.year == b.year && a.month == b.month {
        if last_month(a) {
            day_number_follows_calendar(a, b);
        }
    } else {
        assert(!last_month(a));
        if last_month(b) {
            assert(is_before(ea, b));
            day_number_follows_calendar(ea, b);
        } else {
            assert(is_before(ea, eb));
            day_number_follows_calendar(ea, eb);
        }
    }
}

/// A later invoice date never gives an earlier due date: under the same terms
/// the day numbers of the due dates (those `due_date` returns) follow the order
/// of the invoice dates, and when the later invoice's due date can be
/// represented, so can the earlier one's.
pub proof fn due_dates_follow_invoice_dates(terms: TermConfig, a: CalendarDate, b: CalendarDate)
    requires
        is_valid_date(a),
        is_valid_date(b),
        day_number(a) <= day_number(b),
    ensures
        due_day_number(terms, a) <= due_day_number(terms, b),
        due_date_of(terms, b) is Some ==> due_date_of(terms, a) is Some,
{
    lemma_due_base_follows_invoices(terms, a, b);
}

/// The due date of an invoice, when `x` is a date with its day number, is
/// shown as the text of `x`.
proof fn lemma_due_date_text_of(terms: TermConfig, invoice: CalendarDate, x: CalendarDate)
    requires
        is_valid_date(x),
        day_number(x) == due_day_number(terms, invoice),
    ensures
        due_date_text(terms, Some(invoice)) == date_text(x),
{
    let last = last_representable_date();
    if x != last {
        if is_before(last, x) {
            day_number_follows_calendar(last, x);
        } else {
            day_number_follows_calendar(x, last);
        }
    }
    let e = date_with_day_number(due_day_number(terms, invoice));
    assert(is_valid_date(e) && day_number(e) == day_number(x));
    day_number_identifies_date(e, x);
}

/// As texts too, a later invoice date never gives an earlier due date: for
/// due dates with four-digit years (the dates `due_date` returns), the text
/// shown for the later invoice does not come before the other in the order of
/// strings.
pub proof fn due_date_texts_follow_invoice_dates(
    terms: TermConfig,
    a: CalendarDate,
    b: CalendarDate,
    x: CalendarDate,
    y: CalendarDate,
)
    requires
        is_valid_date(a),
        is_valid_date(b),
        day_number(a) <= day_number(b),
        is_valid_date(x),
        day_number(x) == due_day_number(terms, a),
        is_valid_date(y),
        day_number(y) == due_day_number(terms, b),
        1000 <= x.year <= 9999,
        1000 <= y.year <= 9999,
    ensures
        due_date_text(terms, Some(a)) == date_text(x),
        due_date_text(terms, Some(b)) == date_text(y),
        text_le(due_date_text(terms, Some(a)), due_date_text(terms, Some(b))),
{
    due_dates_follow_invoice_dates(terms, a, b);
    lemma_due_date_text_of(terms, a, x);
    lemma_due_date_text_of(terms, b, y);
    date_texts_follow_calendar(x, y);
}

/// A supplier with stored terms is given exactly those terms, whatever its
/// order or payment type; one without any is given the default terms.
pub proof fn stored_terms_are_used(m: Map<Seq<char>, TermConfig>, code: Seq<char>)
    ensures
        m.contains_key(code) ==> terms_for(m, code) == m[code],
        !m.contains_key(code) ==> terms_for(m, code) == default_terms(),
{
}

/// A supplier stored with end-of-month terms has its invoices fall due the
/// term's days after the last day of the invoice's month, whatever its order
/// or payment type: the text shown is that of the date `x` with that day
/// number (below the last representable year's December).
pub proof fn stored_end_of_month_supplier_due_date(
    m: Map<Seq<char>, TermConfig>,
    code: Seq<char>,
    invoice: CalendarDate,
    x: CalendarDate,
)
    requires
        m.contains_key(code),
        m[code].term_type == TermType::Eom,
        is_valid_date(invoice),
        !(invoice.year == max_year() && invoice.month == 12),
        is_valid_date(x),
        day_number(x) == day_number(last_day_of_month(invoice)) + m[code].term_days,
    ensures
        due_date_text(terms_for(m, code), Some(invoice)) == date_text(x),
{
    stored_terms_are_used(m, code);
    lemma_due_date_text_of(terms_for(m, code), invoice, x);
}

/// A supplier stored with net-days terms has its invoices fall due the term's
/// days after the invoice date, whatever its order or payment type.
pub proof fn stored_net_days_supplier_due_date(
    m: Map<Seq<char>, TermConfig>,
    code: Seq<char>,
    invoice: CalendarDate,
    x: CalendarDate,
)
    requires
        m.contains_key(code),
        m[code].term_type == TermType::NetDays,
        is_valid_date(invoice),
        is_valid_date(x),
        day_number(x) == day_number(invoice) + m[code].term_days,
    ensures
        due_date_text(terms_for(m, code), Some(invoice)) == date_text(x),
{
    stored_terms_are_used(m, code);
    lemma_due_date_text_of(terms_for(m, code), invoice, x);
}

/// Under end-of-month terms, all invoices of one month fall due on the same day
/// (below the last representable year's December).
pub proof fn end_of_month_groups_a_month(terms: TermConfig, a: CalendarDate, b: CalendarDate)
    requires
        terms.term_type == TermType::Eom,
        a.year == b.year,
        a.month == b.month,
        !(a.year == max_year() && a.month == 12),
    ensures
        due_date_of(terms, a) == due_date_of(terms, b),
{
}

/// Merging a finite configuration with a supplier list drops no supplier and
/// leaves out none of the list: the result is finite and holds at least as
/// many suppliers as the configuration did and as the list has distinct codes.
pub proof fn merging_counts_every_supplier(m: Map<Seq<char>, TermConfig>, codes: Seq<Seq<char>>)
    requires
        m.dom().finite(),
    ensures
        with_defaults_for(m, codes).dom().finite(),
        m.dom().subset_of(with_defaults_for(m, codes).dom()),
        codes.to_set().subset_of(with_defaults_for(m, codes).dom()),
        with_defaults_for(m, codes).len() >= m.len(),
        with_defaults_for(m, codes).len() >= codes.to_set().len(),
{
    let d = with_defaults_for(m, codes).dom();
    broadcast use vstd::seq_lib::seq_to_set_is_finite;
    assert(d =~= m.dom().union(codes.to_set()));
    vstd::set_lib::lemma_set_union_finite_iff(m.dom(), codes.to_set());
    vstd::set_lib::lemma_len_subset(m.dom(), d);
    vstd::set_lib::lemma_len_subset(codes.to_set(), d);
}

/// Saving edits drops no supplier from a finite configuration: every supplier
/// stays, so the count never goes down.
pub proof fn saving_never_drops_a_supplier(
    m: Map<Seq<char>, TermConfig>,
    entries: Seq<SupplierConfigEntry>,
)
    requires
        m.dom().finite(),
    ensures
        with_edits(m, entries).dom().finite(),
        m.dom().subset_of(with_edits(m, entries).dom()),
        with_edits(m, entries).len() >= m.len(),
    decreases entries.len(),
{
    if entries.len() > 0 {
        saving_never_drops_a_supplier(m, entries.drop_last());
        let prev = with_edits(m, entries.drop_last());
        let e = entries.last();
        let t = edited_terms(e.term_type@, e.term_days, e.order_type@, e.payment_type@);
        assert(prev.insert(e.code@, t).dom() =~= prev.dom().insert(e.code@));
        vstd::set_lib::lemma_len_subset(prev.dom(), prev.dom().insert(e.code@));
    }
}

/// Saving one supplier's terms drops no supplier from a finite configuration.
pub proof fn saving_one_never_drops_a_supplier(
    m: Map<Seq<char>, TermConfig>,
    code: Seq<char>,
    t: TermConfig,
)
    requires
        m.dom().finite(),
    ensures
        m.insert(code, t).dom().finite(),
        m.dom().subset_of(m.insert(code, t).dom()),
        m.insert(code, t).len() >= m.len(),
{
    assert(m.insert(code, t).dom() =~= m.dom().insert(code));
    vstd::set_lib::lemma_len_subset(m.dom(), m.dom().insert(code));
}

/// Supplier codes without terms get the default terms, which are not marked as
/// configured; codes with terms keep them; no other code gets any.
pub proof fn merging_keeps_configured_terms(m: Map<Seq<char>, TermConfig>, codes: Seq<Seq<char>>)
    ensures
        forall|k: Seq<char>| #[trigger]
            with_defaults_for(m, codes).contains_key(k) <==> m.contains_key(k) || codes.contains(k),
        forall|k: Seq<char>| m.contains_key(k) ==> #[trigger] with_defaults_for(m, codes)[k] == m[k],
        forall|k: Seq<char>|
            !m.contains_key(k) && codes.contains(k) ==> #[trigger] with_defaults_for(m, codes)[k]
                == default_terms(),
        !default_terms().configured,
{
}

/// A supplier without terms is treated as end of month plus 20 days.
pub proof fn unconfigured_supplier_uses_eom_20(m: Map<Seq<char>, TermConfig>, code: Seq<char>)
    requires
        !m.contains_key(code),
    ensures
        terms_for(m, code).term_type == TermType::Eom,
        terms_for(m, code).term_days == 20,
        !terms_for(m, code).configured,
{
}

/// Without a configuration file, every supplier of the list gets the default
/// terms, not marked as configured, and no other code gets any.
pub proof fn first_configuration_has_defaults(codes: Seq<Seq<char>>)
    ensures
        with_defaults_for(Map::empty(), codes).dom() == codes.to_set(),
        forall|k: Seq<char>|
            codes.contains(k) ==> #[trigger] with_defaults_for(Map::empty(), codes)[k]
                == default_terms(),
{
    assert(with_defaults_for(Map::empty(), codes).dom() =~= codes.to_set());
}

/// Merging the same supplier list twice changes nothing the second time.
pub proof fn merging_twice_is_merging_once(m: Map<Seq<char>, TermConfig>, codes: Seq<Seq<char>>)
    ensures
        with_defaults_for(with_defaults_for(m, codes), codes) == with_defaults_for(m, codes),
{
    assert(with_defaults_for(with_defaults_for(m, codes), codes) =~= with_defaults_for(m, codes));
}

/// After an edit of one supplier, that supplier is configured with the edited
/// terms, and every other supplier keeps its terms.
pub proof fn saving_one_configures_it(
    m: Map<Seq<char>, TermConfig>,
    code: Seq<char>,
    term_type: Seq<char>,
    term_days: u16,
    order_type: Seq<char>,
    payment_type: Seq<char>,
    other: Seq<char>,
)
    requires
        other != code,
    ensures
        terms_for(
            m.insert(code, edited_terms(term_type, term_days, order_type, payment_type)),
            code,
        ).configured,
        terms_for(
            m.insert(code, edited_terms(term_type, term_days, order_type, payment_type)),
            code,
        ).term_days == term_days,
        terms_for(
            m.insert(code, edited_terms(term_type, term_days, order_type, payment_type)),
            other,
        ) == terms_for(m, other),
{
}

/// `t` marked as configured.
pub open spec fn configured(t: TermConfig) -> TermConfig {
    TermConfig { configured: true, ..t }
}

/// Edits for other codes leave a code as it was.
proof fn lemma_edits_keep_other_codes(
    m: Map<Seq<char>, TermConfig>,
    entries: Seq<SupplierConfigEntry>,
    k: Seq<char>,
)
    requires
        forall|i: int| 0 <= i < entries.len() ==> (#[trigger] entries[i]).code@ != k,
    ensures
        with_edits(m, entries).contains_key(k) == m.contains_key(k),
        m.contains_key(k) ==> with_edits(m, entries)[k] == m[k],
    decreases entries.len(),
{
    if entries.len() > 0 {
        let pe = entries.drop_last();
        assert forall|i: int| 0 <= i < pe.len() implies (#[trigger] pe[i]).code@ != k by {
            assert(pe[i] == entries[i]);
        }
        lemma_edits_keep_other_codes(m, pe, k);
        assert(entries[entries.len() - 1].code@ != k);
    }
}

/// Saving back shown entries gives each shown supplier its terms, configured.
proof fn lemma_shown_entries_configured(
    m: Map<Seq<char>, TermConfig>,
    suppliers: Seq<Supplier>,
    entries: Seq<SupplierConfigEntry>,
)
    requires
        entries.len() == suppliers.len(),
        forall|i: int|
            0 <= i < entries.len() ==> entry_shows(
                #[trigger] entries[i],
                suppliers[i],
                terms_for(m, suppliers[i].code@),
            ),
    ensures
        forall|i: int|
            0 <= i < suppliers.len() ==> #[trigger] with_edits(m, entries)[suppliers[i].code@]
                == configured(terms_for(m, suppliers[i].code@)),
        forall|i: int|
            0 <= i < suppliers.len() ==> with_edits(m, entries).contains_key(
                #[trigger] suppliers[i].code@,
            ),
    decreases entries.len(),
{
    if entries.len() > 0 {
        let n = entries.len() - 1;
        let pe = entries.drop_last();
        let ps = suppliers.drop_last();
        assert forall|i: int| 0 <= i < pe.len() implies entry_shows(
            #[trigger] pe[i],
            ps[i],
            terms_for(m, ps[i].code@),
        ) by {
            assert(entry_shows(entries[i], suppliers[i], terms_for(m, suppliers[i].code@)));
        }
        lemma_shown_entries_configured(m, ps, pe);
        let e = entries.last();
        let t = terms_for(m, suppliers[n].code@);
        assert(entry_shows(entries[n], suppliers[n], t));
        term_type_label_reads_back(t.term_type);
        order_type_label_reads_back(t.order_type);
        payment_type_label_reads_back(t.payment_type);
        assert(edited_terms(e.term_type@, e.term_days, e.order_type@, e.payment_type@)
            == configured(t));
        assert forall|i: int| 0 <= i < suppliers.len() implies #[trigger] with_edits(
            m,
            entries,
        )[suppliers[i].code@] == configured(terms_for(m, suppliers[i].code@)) by {
            if i < n {
                assert(ps[i] == suppliers[i]);
            }
        }
        assert forall|i: int| 0 <= i < suppliers.len() implies with_edits(m, entries).contains_key(
            #[trigger] suppliers[i].code@,
        ) by {
            if i < n {
                assert(ps[i] == suppliers[i]);
            }
        }
    }
}

/// Saving back the entries that `get_all_entries` shows keeps every shown
/// supplier's terms (marking it configured) and leaves every other code as it
/// was.
pub proof fn saving_shown_entries_keeps_terms(
    m: Map<Seq<char>, TermConfig>,
    suppliers: Seq<Supplier>,
    entries: Seq<SupplierConfigEntry>,
)
    requires
        entries.len() == suppliers.len(),
        forall|i: int|
            0 <= i < entries.len() ==> entry_shows(
                #[trigger] entries[i],
                suppliers[i],
                terms_for(m, suppliers[i].code@),
            ),
    ensures
        forall|i: int|
            0 <= i < suppliers.len() ==> #[trigger] with_edits(m, entries)[suppliers[i].code@]
                == configured(terms_for(m, suppliers[i].code@)),
        forall|i: int|
            0 <= i < suppliers.len() ==> with_edits(m, entries).contains_key(
                #[trigger] suppliers[i].code@,
            ),
        forall|k: Seq<char>|
            !supplier_codes(suppliers).contains(k) ==> (#[trigger] with_edits(m, entries).contains_key(k)
                == m.contains_key(k) && (m.contains_key(k) ==> with_edits(m, entries)[k] == m[k])),
{
    lemma_shown_entries_configured(m, suppliers, entries);
    assert forall|k: Seq<char>| !supplier_codes(suppliers).contains(k) implies (
    #[trigger] with_edits(m, entries).contains_key(k) == m.contains_key(k) && (m.contains_key(k)
        ==> with_edits(m, entries)[k] == m[k])) by {
        assert forall|i: int| 0 <= i < entries.len() implies (#[trigger] entries[i]).code@ != k by {
            assert(entry_shows(entries[i], suppliers[i], terms_for(m, suppliers[i].code@)));
            assert(supplier_codes(suppliers)[i] == suppliers[i].code@);
        }
        lemma_edits_keep_other_codes(m, entries, k);
    }
}

/// Reading back the text shown for a term type gives the same term type.
pub proof fn term_type_label_reads_back(t: TermType)
    ensures
        term_type_from_text(term_type_label(t)) == t,
{
    reveal_strlit("EOM");
    reveal_strlit("NetDays");
    reveal_strlit("netdays");
    let s = term_type_label(t);
    assert(all_ascii(s));
    let l = s.map_values(|c: char| ascii_lower(c));
    match t {
        TermType::Eom => {
            assert(l.len() == 3);
            assert(l != "netdays"@);
        },
        TermType::NetDays => {
            assert(l =~= "netdays"@);
        },
    }
}

/// Reading back the text shown for an order type gives the same order type.
pub proof fn order_type_label_reads_back(t: OrderType)
    ensures
        order_type_from_text(order_type_label(t)) == t,
{
    reveal_strlit("Weekly");
    reveal_strlit("Monthly");
    reveal_strlit("weekly");
    let s = order_type_label(t);
    assert(all_ascii(s));
    let l = s.map_values(|c: char| ascii_lower(c));
    match t {
        OrderType::Weekly => {
            assert(l =~= "weekly"@);
        },
        OrderType::Monthly => {
            assert(l.len() == 7);
            assert(l != "weekly"@);
        },
    }
}

/// Reading back the text shown for a payment type gives the same payment type.
pub proof fn payment_type_label_reads_back(t: PaymentType)
    ensures
        payment_type_from_text(payment_type_label(t)) == t,
{
    reveal_strlit("DC");
    reveal_strlit("DD");
    reveal_strlit("dd");
    let s = payment_type_label(t);
    assert(all_ascii(s));
    let l = s.map_values(|c: char| ascii_lower(c));
    match t {
        PaymentType::DirectCredit => {
            assert(l[1] == 'c');
            assert(l != "dd"@);
        },
        PaymentType::DirectDebit => {
            assert(l =~= "dd"@);
        },
    }
}

} // verus!
