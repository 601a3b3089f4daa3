//! The back-office database as the application sees it: rows shaped into
//! suppliers and branches, the invoice query, and the reading of the
//! connection string into the pool manager's settings.

use vstd::prelude::*;

use crate::calendar::{decimal, digit_char};
use crate::text::{
    contains_text, find_char, first_index, has_infix, lower, lower_text, same_text, strip_prefixes,
    trim, trim_char, trimmed, trimmed_of, without_prefixes,
};

verus! {

// ── Data structures ───────────────────────────────────────────────

/// A supplier: its code and the label shown to the operator.
#[derive(Debug)]
pub struct Supplier {
    pub code: String,
    pub label: String,
}

/// A branch of the business.
#[derive(Debug)]
pub struct Branch {
    pub id: String,
    pub name: String,
}

/// The filters of an invoice search, as the request gives them.
#[derive(Debug)]
pub struct InvoiceQuery {
    pub from: Option<String>,
    pub to: Option<String>,
    pub branch: Option<String>,
    pub supplier: Option<String>,
}

/// Errors of the database layer.
#[derive(Debug)]
pub enum DbError {
    Connection(String),
    Query(String),
}

// ── Row shaping ───────────────────────────────────────────────────

/// The label of a supplier: `code - last (first)`, leaving out an empty name.
pub open spec fn supplier_label(code: Seq<char>, last_name: Seq<char>, first_name: Seq<char>) -> Seq<
    char,
> {
    if last_name.len() > 0 && first_name.len() > 0 {
        code + " - "@ + last_name + " ("@ + first_name + ")"@
    } else if last_name.len() > 0 {
        code + " - "@ + last_name
    } else if first_name.len() > 0 {
        code + " - ("@ + first_name + ")"@
    } else {
        code
    }
}

/// The supplier of a `Customers` row with the given code and names; none for
/// a row without a code.
pub fn supplier_from_cells(code: String, last_name: String, first_name: String) -> (r: Option<
    Supplier,
>)
    ensures
        r is Some <==> code@.len() > 0,
        r matches Some(s) ==> s.code@ == code@ && s.label@ == supplier_label(
            code@,
            last_name@,
            first_name@,
        ),
{
    if code.as_str().is_empty() {
        return None;
    }
    let has_last = !last_name.as_str().is_empty();
    let has_first = !first_name.as_str().is_empty();
    let mut label = code.clone();
    if has_last && has_first {
        label.append(" - ");
        label.append(last_name.as_str());
        label.append(" (");
        label.append(first_name.as_str());
        label.append(")");
    } else if has_last {
        label.append(" - ");
        label.append(last_name.as_str());
    } else if has_first {
        label.append(" - (");
        label.append(first_name.as_str());
        label.append(")");
    }
    Some(Supplier { code, label })
}

/// The branch of a `Branches` row; none for a row without an id.
pub fn branch_from_cells(id: String, name: String) -> (r: Option<Branch>)
    ensures
        r is Some <==> id@.len() > 0,
        r matches Some(b) ==> b.id@ == id@ && b.name@ == name@,
{
    if id.as_str().is_empty() {
        None
    } else {
        Some(Branch { id, name })
    }
}

// ── Cells of a result row ─────────────────────────────────────────

/// The value of one cell of a result row, by the column's type.
#[derive(Debug)]
pub enum Cell {
    Text(String),
    Int32(i32),
    Int16(i16),
    Int64(i64),
    Byte(u8),
    /// A null, or a value of another type.
    Other,
}

/// The decimal text of an integer, with a `-` in front when negative.
pub open spec fn signed_decimal(v: int) -> Seq<char> {
    if v < 0 {
        seq!['-'] + decimal((-v) as nat)
    } else {
        decimal(v as nat)
    }
}

/// The text of one decimal digit.
fn digit_text(d: u64) -> (r: &'static str)
    requires
        d < 10,
    ensures
        r@ == seq![digit_char(d as int)],
{
    proof {
        reveal_strlit("0");
        reveal_strlit("1");
        reveal_strlit("2");
        reveal_strlit("3");
        reveal_strlit("4");
        reveal_strlit("5");
        reveal_strlit("6");
        reveal_strlit("7");
        reveal_strlit("8");
        reveal_strlit("9");
    }
    match d {
        0 => "0",
        1 => "1",
        2 => "2",
        3 => "3",
        4 => "4",
        5 => "5",
        6 => "6",
        7 => "7",
        8 => "8",
        _ => "9",
    }
}

/// Appends the decimal text of `n` to `out`.
fn push_decimal(out: &mut String, n: u64)
    ensures
        final(out)@ == old(out)@ + decimal(n as nat),
    decreases n,
{
    if n >= 10 {
        push_decimal(out, n / 10);
    }
    out.append(digit_text(n % 10));
    proof {
        assert(old(out)@ + decimal(n as nat) =~= old(out)@ + (if n >= 10 {
            decimal((n / 10) as nat)
        } else {
            Seq::empty()
        }) + seq![digit_char((n % 10) as int)]);
    }
}

/// The decimal text of an integer, with a `-` in front when negative.
fn integer_text(v: i64) -> (r: String)
    ensures
        r@ == signed_decimal(v as int),
{
    let mut out = String::new();
    let wide: i128 = v as i128;
    let magnitude: u64 = if wide < 0 {
        out.append("-");
        proof {
            reveal_strlit("-");
        }
        (0 - wide) as u64
    } else {
        wide as u64
    };
    push_decimal(&mut out, magnitude);
    out
}

/// The text of a cell: a text trimmed, an integer in decimal, anything else
/// empty.
pub open spec fn cell_text(c: Cell) -> Seq<char> {
    match c {
        Cell::Text(s) => trimmed(s@),
        Cell::Int32(v) => signed_decimal(v as int),
        Cell::Int16(v) => signed_decimal(v as int),
        Cell::Int64(v) => signed_decimal(v as int),
        Cell::Byte(v) => signed_decimal(v as int),
        Cell::Other => Seq::empty(),
    }
}

/// The text of a cell: a text trimmed, an integer in decimal, anything else
/// empty.
pub fn cell_to_string(cell: &Cell) -> (r: String)
    ensures
        r@ == cell_text(*cell),
{
    match cell {
        Cell::Text(s) => trim(s.as_str()).to_owned(),
        Cell::Int32(v) => integer_text(*v as i64),
        Cell::Int16(v) => integer_text(*v as i64),
        Cell::Int64(v) => integer_text(*v),
        Cell::Byte(v) => integer_text(*v as i64),
        Cell::Other => String::new(),
    }
}

// ── The invoice query ─────────────────────────────────────────────

/// `s` with every single quote doubled, for use inside a SQL string literal.
pub open spec fn sql_escaped(s: Seq<char>) -> Seq<char>
    decreases s.len(),
{
    if s.len() == 0 {
        Seq::empty()
    } else if s.last() == '\'' {
        sql_escaped(s.drop_last()) + seq!['\'', '\'']
    } else {
        sql_escaped(s.drop_last()).push(s.last())
    }
}

/// The SQL condition on `column_test` for a filter value: none when the value is
/// empty or `ALL`.
pub open spec fn filter_clause(column_test: Seq<char>, value: Seq<char>) -> Seq<char> {
    if value.len() == 0 || value == "ALL"@ {
        Seq::empty()
    } else {
        column_test + sql_escaped(value) + "'"@
    }
}

/// The query for the invoices dated from `from` (inclusive) to `to`
/// (exclusive), of one branch and one supplier unless these are empty or `ALL`,
/// newest first.
pub open spec fn invoice_sql(from: Seq<char>, to: Seq<char>, branch: Seq<char>, supplier: Seq<char>) -> Seq<
    char,
> {
    "SELECT [Branch], [SupplierCode], [InvoiceNumber], [Description], [InvoiceDate], [InvoiceAmount], [PONumber], [TaxAmount1], [Logged] FROM [APInv] WHERE [InvoiceDate] >= '"@
        + sql_escaped(from) + "' AND [InvoiceDate] < '"@ + sql_escaped(to) + "' "@ + filter_clause(
        " AND [Branch] = '"@,
        branch,
    ) + " "@ + filter_clause(" AND [SupplierCode] = '"@, supplier) + " ORDER BY [InvoiceDate] DESC"@
}

/// Every single quote of `t` is the second of an adjacent pair, read from the
/// end: the text can stand inside a SQL string literal.
pub open spec fn quotes_paired(t: Seq<char>) -> bool
    decreases t.len(),
{
    if t.len() == 0 {
        true
    } else if t.last() == '\'' {
        t.len() >= 2 && t[t.len() - 2] == '\'' && quotes_paired(t.take(t.len() - 2))
    } else {
        quotes_paired(t.drop_last())
    }
}

/// The text a SQL string literal body `t` stands for: each pair of quotes is
/// one quote.
pub open spec fn sql_unescaped(t: Seq<char>) -> Seq<char>
    decreases t.len(),
{
    if t.len() == 0 {
        Seq::empty()
    } else if t.len() >= 2 && t.last() == '\'' && t[t.len() - 2] == '\'' {
        sql_unescaped(t.take(t.len() - 2)).push('\'')
    } else {
        sql_unescaped(t.drop_last()).push(t.last())
    }
}

/// Escaped text can stand inside a SQL string literal, and stands for the text
/// it was made from.
pub proof fn escaping_reads_back(s: Seq<char>)
    ensures
        quotes_paired(sql_escaped(s)),
        sql_unescaped(sql_escaped(s)) == s,
    decreases s.len(),
{
    if s.len() > 0 {
        let p = s.drop_last();
        escaping_reads_back(p);
        let e = sql_escaped(s);
        let ep = sql_escaped(p);
        if s.last() == '\'' {
            assert(e.take(e.len() - 2) =~= ep);
        } else {
            assert(e.drop_last() =~= ep);
        }
        assert(sql_unescaped(e) =~= s);
    }
}

/// A filter value restricts the query: it is neither empty nor `ALL`.
pub open spec fn filter_applies(value: Seq<char>) -> bool {
    !(value.len() == 0 || value == "ALL"@)
}

/// The fixed text of the invoice query, in pieces between which its string
/// literals stand; it depends only on which of the branch and supplier filters
/// apply.
pub open spec fn query_pieces(branch_applies: bool, supplier_applies: bool) -> Seq<Seq<char>> {
    let head = "SELECT [Branch], [SupplierCode], [InvoiceNumber], [Description], [InvoiceDate], [InvoiceAmount], [PONumber], [TaxAmount1], [Logged] FROM [APInv] WHERE [InvoiceDate] >= '"@;
    let between = "' AND [InvoiceDate] < '"@;
    let branch_test = " AND [Branch] = '"@;
    let supplier_test = " AND [SupplierCode] = '"@;
    let tail = " ORDER BY [InvoiceDate] DESC"@;
    if branch_applies && supplier_applies {
        seq![head, between, "' "@ + branch_test, "'"@ + " "@ + supplier_test, "'"@ + tail]
    } else if branch_applies {
        seq![head, between, "' "@ + branch_test, "'"@ + " "@ + tail]
    } else if supplier_applies {
        seq![head, between, "' "@ + " "@ + supplier_test, "'"@ + tail]
    } else {
        seq![head, between, "' "@ + " "@ + tail]
    }
}

/// The values that stand in the string literals of the invoice query, in
/// order: the dates, then the branch and the supplier where their filter
/// applies.
pub open spec fn query_values(from: Seq<char>, to: Seq<char>, branch: Seq<char>, supplier: Seq<char>) -> Seq<
    Seq<char>,
> {
    seq![from, to] + (if filter_applies(branch) {
        seq![branch]
    } else {
        Seq::empty()
    }) + (if filter_applies(supplier) {
        seq![supplier]
    } else {
        Seq::empty()
    })
}

/// `pieces[0] + literals[0] + pieces[1] + ... + literals[n - 1] + pieces[n]`.
pub open spec fn joined(pieces: Seq<Seq<char>>, literals: Seq<Seq<char>>) -> Seq<char>
    recommends
        pieces.len() == literals.len() + 1,
    decreases literals.len(),
{
    if literals.len() == 0 {
        pieces[0]
    } else {
        joined(pieces.drop_last(), literals.drop_last()) + literals.last() + pieces.last()
    }
}

/// The invoice query bounds `[InvoiceDate]` by the escaped dates, and when the
/// branch filter applies it tests `[Branch]` against the escaped branch right
/// after them.
pub proof fn query_tests_dates_then_branch(
    from: Seq<char>,
    to: Seq<char>,
    branch: Seq<char>,
    supplier: Seq<char>,
)
    ensures
        ({
            let dates = "SELECT [Branch], [SupplierCode], [InvoiceNumber], [Description], [InvoiceDate], [InvoiceAmount], [PONumber], [TaxAmount1], [Logged] FROM [APInv] WHERE [InvoiceDate] >= '"@
                + sql_escaped(from) + "' AND [InvoiceDate] < '"@ + sql_escaped(to) + "' "@;
            let start = if filter_applies(branch) {
                dates + " AND [Branch] = '"@ + sql_escaped(branch) + "'"@
            } else {
                dates
            };
            start.is_prefix_of(invoice_sql(from, to, branch, supplier))
        }),
{
    let dates = "SELECT [Branch], [SupplierCode], [InvoiceNumber], [Description], [InvoiceDate], [InvoiceAmount], [PONumber], [TaxAmount1], [Logged] FROM [APInv] WHERE [InvoiceDate] >= '"@
        + sql_escaped(from) + "' AND [InvoiceDate] < '"@ + sql_escaped(to) + "' "@;
    let q = invoice_sql(from, to, branch, supplier);
    let bc = filter_clause(" AND [Branch] = '"@, branch);
    let rest = " "@ + filter_clause(" AND [SupplierCode] = '"@, supplier) + " ORDER BY [InvoiceDate] DESC"@;
    assert(q =~= dates + bc + rest);
    let start = dates + bc;
    assert(q.subrange(0, start.len() as int) =~= start);
}

/// Whenever the supplier filter applies, whatever the branch filter, the query
/// ends by testing `[SupplierCode]` against the escaped supplier, then orders
/// newest first.
pub proof fn supplier_filter_tests_the_supplier_column(
    from: Seq<char>,
    to: Seq<char>,
    branch: Seq<char>,
    supplier: Seq<char>,
)
    requires
        filter_applies(supplier),
    ensures
        ({
            let q = invoice_sql(from, to, branch, supplier);
            let tail = " AND [SupplierCode] = '"@ + sql_escaped(supplier) + "'"@
                + " ORDER BY [InvoiceDate] DESC"@;
            q.len() >= tail.len() && q.skip(q.len() - tail.len()) == tail
        }),
{
    let q = invoice_sql(from, to, branch, supplier);
    let tail = " AND [SupplierCode] = '"@ + sql_escaped(supplier) + "'"@ + " ORDER BY [InvoiceDate] DESC"@;
    let front = "SELECT [Branch], [SupplierCode], [InvoiceNumber], [Description], [InvoiceDate], [InvoiceAmount], [PONumber], [TaxAmount1], [Logged] FROM [APInv] WHERE [InvoiceDate] >= '"@
        + sql_escaped(from) + "' AND [InvoiceDate] < '"@ + sql_escaped(to) + "' "@ + filter_clause(
        " AND [Branch] = '"@,
        branch,
    ) + " "@;
    assert(q =~= front + tail);
    assert(q.skip(q.len() - tail.len()) =~= tail);
}

/// Two invoice queries whose branch filters both apply or both do not, and
/// likewise their supplier filters, differ only inside their string literals:
/// each is the same fixed text with, between its pieces, the values it was
/// given with every quote doubled; each literal has its quotes paired and
/// reads back as its value, so no value can end a literal.
pub proof fn queries_differ_only_in_literals(
    from1: Seq<char>,
    to1: Seq<char>,
    branch1: Seq<char>,
    supplier1: Seq<char>,
    from2: Seq<char>,
    to2: Seq<char>,
    branch2: Seq<char>,
    supplier2: Seq<char>,
)
    requires
        filter_applies(branch1) == filter_applies(branch2),
        filter_applies(supplier1) == filter_applies(supplier2),
    ensures
        ({
            let pieces = query_pieces(filter_applies(branch1), filter_applies(supplier1));
            let (v1, v2) = (
                query_values(from1, to1, branch1, supplier1),
                query_values(from2, to2, branch2, supplier2),
            );
            &&& v1.len() == v2.len() && pieces.len() == v1.len() + 1
            &&& invoice_sql(from1, to1, branch1, supplier1) == joined(
                pieces,
                v1.map_values(|v: Seq<char>| sql_escaped(v)),
            )
            &&& invoice_sql(from2, to2, branch2, supplier2) == joined(
                pieces,
                v2.map_values(|v: Seq<char>| sql_escaped(v)),
            )
        }),
        forall|v: Seq<char>|
            quotes_paired(#[trigger] sql_escaped(v)) && sql_unescaped(sql_escaped(v)) == v,
{
    lemma_query_as_pieces(from1, to1, branch1, supplier1);
    lemma_query_as_pieces(from2, to2, branch2, supplier2);
    assert forall|v: Seq<char>|
        quotes_paired(#[trigger] sql_escaped(v)) && sql_unescaped(sql_escaped(v)) == v by {
        escaping_reads_back(v);
    }
}

proof fn lemma_query_as_pieces(from: Seq<char>, to: Seq<char>, branch: Seq<char>, supplier: Seq<char>)
    ensures
        ({
            let pieces = query_pieces(filter_applies(branch), filter_applies(supplier));
            let v = query_values(from, to, branch, supplier);
            &&& pieces.len() == v.len() + 1
            &&& invoice_sql(from, to, branch, supplier) == joined(
                pieces,
                v.map_values(|x: Seq<char>| sql_escaped(x)),
            )
        }),
{
    reveal_with_fuel(joined, 5);
    let pieces = query_pieces(filter_applies(branch), filter_applies(supplier));
    let v = query_values(from, to, branch, supplier);
    let e = v.map_values(|x: Seq<char>| sql_escaped(x));
    let (ef, et, eb, es) = (sql_escaped(from), sql_escaped(to), sql_escaped(branch), sql_escaped(supplier));
    let head = pieces[0];
    let between = pieces[1];
    if filter_applies(branch) && filter_applies(supplier) {
        assert(e =~= seq![ef, et, eb, es]);
        assert(invoice_sql(from, to, branch, supplier) =~= head + ef + between + et + pieces[2] + eb
            + pieces[3] + es + pieces[4]);
        assert(joined(pieces, e) =~= head + ef + between + et + pieces[2] + eb + pieces[3] + es
            + pieces[4]);
    } else if filter_applies(branch) {
        assert(e =~= seq![ef, et, eb]);
        assert(invoice_sql(from, to, branch, supplier) =~= head + ef + between + et + pieces[2] + eb
            + pieces[3]);
        assert(joined(pieces, e) =~= head + ef + between + et + pieces[2] + eb + pieces[3]);
    } else if filter_applies(supplier) {
        assert(e =~= seq![ef, et, es]);
        assert(invoice_sql(from, to, branch, supplier) =~= head + ef + between + et + pieces[2] + es
            + pieces[3]);
        assert(joined(pieces, e) =~= head + ef + between + et + pieces[2] + es + pieces[3]);
    } else {
        assert(e =~= seq![ef, et]);
        assert(invoice_sql(from, to, branch, supplier) =~= head + ef + between + et + pieces[2]);
        assert(joined(pieces, e) =~= head + ef + between + et + pieces[2]);
    }
}

/// Appends `s`, its single quotes doubled, to `out`.
fn append_escaped(out: &mut String, s: &str)
    ensures
        final(out)@ == old(out)@ + sql_escaped(s@),
{
    let n = s.unicode_len();
    let mut i: usize = 0;
    let ghost start = out@;
    proof {
        assert(s@.take(0) =~= Seq::<char>::empty());
        assert(start + sql_escaped(s@.take(0)) =~= start);
    }
    while i < n
        invariant
            n == s@.len(),
            0 <= i <= n,
            out@ == start + sql_escaped(s@.take(i as int)),
        decreases n - i,
    {
        let c = s.get_char(i);
        proof {
            assert(s@.take(i + 1).drop_last() =~= s@.take(i as int));
            assert(s@.take(i + 1).last() == c);
        }
        if c == '\'' {
            out.append("''");
            proof {
                reveal_strlit("''");
                assert(out@ =~= start + sql_escaped(s@.take(i + 1)));
            }
        } else {
            let one = s.substring_char(i, i + 1);
            out.append(one);
            proof {
                assert(one@ =~= seq![c]);
                assert(out@ =~= start + sql_escaped(s@.take(i + 1)));
            }
        }
        i = i + 1;
    }
    proof {
        assert(s@.take(n as int) =~= s@);
    }
}

fn append_filter(out: &mut String, column_test: &str, value: &str)
    ensures
        final(out)@ == old(out)@ + filter_clause(column_test@, value@),
{
    if value.is_empty() || same_text(value, "ALL") {
        assert(old(out)@ + filter_clause(column_test@, value@) =~= old(out)@);
        return ;
    }
    out.append(column_test);
    append_escaped(out, value);
    out.append("'");
    assert(out@ =~= old(out)@ + filter_clause(column_test@, value@));
}

/// The query for the invoices dated from `from_date` to `to_date` (exclusive),
/// filtered by branch and supplier unless these are empty or `ALL`; every
/// value is placed in a SQL string literal with its quotes doubled.
pub fn invoice_query(from_date: &str, to_date: &str, branch: &str, supplier: &str) -> (r: String)
    ensures
        r@ == invoice_sql(from_date@, to_date@, branch@, supplier@),
{
    let mut q = String::from_str(
        "SELECT [Branch], [SupplierCode], [InvoiceNumber], [Description], [InvoiceDate], [InvoiceAmount], [PONumber], [TaxAmount1], [Logged] FROM [APInv] WHERE [InvoiceDate] >= '",
    );
    append_escaped(&mut q, from_date);
    q.append("' AND [InvoiceDate] < '");
    append_escaped(&mut q, to_date);
    q.append("' ");
    append_filter(&mut q, " AND [Branch] = '", branch);
    q.append(" ");
    append_filter(&mut q, " AND [SupplierCode] = '", supplier);
    q.append(" ORDER BY [InvoiceDate] DESC");
    q
}

// ── The connection string ────────────────────────────────────────

/// The encryption levels the database driver knows.
#[derive(Debug, Clone, Copy, PartialEq, Eq, Structural)]
pub enum EncryptionLevel {
    /// Only the login is encrypted.
    Off,
    /// Everything is encrypted if possible.
    On,
    /// Nothing is encrypted.
    NotSupported,
    /// Everything is encrypted, or the connection fails.
    Required,
}

/// One setting a connection string gives the pool manager.
#[derive(Debug)]
pub enum ConnectionSetting {
    Host(String),
    Port(u16),
    Database(String),
    Encryption(EncryptionLevel),
    TrustCert,
}

/// A connection setting with its texts as character sequences.
pub enum SettingSpec {
    Host(Seq<char>),
    Port(u16),
    Database(Seq<char>),
    Encryption(EncryptionLevel),
    TrustCert,
}

impl View for ConnectionSetting {
    type V = SettingSpec;

    open spec fn view(&self) -> SettingSpec {
        match self {
            ConnectionSetting::Host(h) => SettingSpec::Host(h@),
            ConnectionSetting::Port(p) => SettingSpec::Port(*p),
            ConnectionSetting::Database(d) => SettingSpec::Database(d@),
            ConnectionSetting::Encryption(on) => SettingSpec::Encryption(*on),
            ConnectionSetting::TrustCert => SettingSpec::TrustCert,
        }
    }
}

/// How the pool manager is to be built from a connection string.
#[derive(Debug)]
pub enum ConnectionPlan {
    /// The string is an ADO.NET one, read by the database driver itself.
    Ado,
    /// The settings to apply in order, and the user name and password when
    /// both are given.
    Settings { settings: Vec<ConnectionSetting>, credentials: Option<(String, String)> },
}

/// A connection plan with its texts as character sequences.
pub enum PlanSpec {
    Ado,
    Settings(Seq<SettingSpec>, Option<(Seq<char>, Seq<char>)>),
}

pub open spec fn settings_view(s: Seq<ConnectionSetting>) -> Seq<SettingSpec> {
    s.map_values(|x: ConnectionSetting| x@)
}

pub open spec fn text_view(o: Option<String>) -> Option<Seq<char>> {
    match o {
        Some(s) => Some(s@),
        None => None,
    }
}

impl View for ConnectionPlan {
    type V = PlanSpec;

    open spec fn view(&self) -> PlanSpec {
        match self {
            ConnectionPlan::Ado => PlanSpec::Ado,
            ConnectionPlan::Settings { settings, credentials } => PlanSpec::Settings(
                settings_view(settings@),
                match credentials {
                    Some((u, p)) => Some((u@, p@)),
                    None => None,
                },
            ),
        }
    }
}

/// The characters are ASCII decimal digits.
pub open spec fn all_digits(s: Seq<char>) -> bool {
    forall|i: int| 0 <= i < s.len() ==> 48 <= (#[trigger] s[i] as u32) <= 57
}

/// The value of a text of decimal digits.
pub open spec fn digits_value(s: Seq<char>) -> nat
    decreases s.len(),
{
    if s.len() == 0 {
        0
    } else {
        digits_value(s.drop_last()) * 10 + ((s.last() as u32) - 48) as nat
    }
}

/// What `str::parse::<u16>` accepts: an optional `+` followed by one or more
/// ASCII digits whose value fits in 16 bits.
pub open spec fn u16_parsed(s: Seq<char>) -> Option<u16> {
    let d = if s.len() > 0 && s[0] == '+' {
        s.drop_first()
    } else {
        s
    };
    if d.len() > 0 && all_digits(d) && digits_value(d) <= 65535 {
        Some(digits_value(d) as u16)
    } else {
        None
    }
}

/// The value of a text of digits is at least that of any of its prefixes.
proof fn lemma_digits_value_grows(d: Seq<char>, k: int)
    requires
        0 <= k <= d.len(),
    ensures
        digits_value(d.take(k)) <= digits_value(d),
    decreases d.len(),
{
    if k < d.len() {
        assert(d.drop_last().take(k) =~= d.take(k));
        lemma_digits_value_grows(d.drop_last(), k);
    } else {
        assert(d.take(k) =~= d);
    }
}

/// What `str::parse::<u16>` gives: an optional `+` followed by one or more
/// ASCII digits whose value fits in 16 bits.
fn parse_u16(s: &str) -> (r: Option<u16>)
    ensures
        r == u16_parsed(s@),
{
    let n = s.unicode_len();
    let start: usize = if n > 0 && s.get_char(0) == '+' {
        1
    } else {
        0
    };
    let ghost d = if s@.len() > 0 && s@[0] == '+' {
        s@.drop_first()
    } else {
        s@
    };
    proof {
        assert(d =~= s@.subrange(start as int, n as int));
    }
    if start == n {
        return None;
    }
    let mut v: u32 = 0;
    let mut i: usize = start;
    proof {
        assert(d.take(0) =~= Seq::<char>::empty());
    }
    while i < n
        invariant
            n == s@.len(),
            start <= i <= n,
            d == s@.subrange(start as int, n as int),
            d == (if s@.len() > 0 && s@[0] == '+' {
                s@.drop_first()
            } else {
                s@
            }),
            all_digits(d.take(i - start)),
            v == digits_value(d.take(i - start)),
            v <= 65535,
        decreases n - i,
    {
        let c = s.get_char(i);
        let k: usize = i - start;
        proof {
            assert(d[k as int] == c);
            assert(d.take(k + 1).drop_last() =~= d.take(k as int));
            assert(d.take(k + 1).last() == c);
        }
        let code: u32 = c as u32;
        if !(48 <= code && code <= 57) {
            proof {
                assert(!(48 <= (d[k as int] as u32) <= 57));
                assert(!all_digits(d));
            }
            return None;
        }
        let nv: u32 = v * 10 + (code - 48);
        if nv > 65535 {
            proof {
                assert(all_digits(d.take(k + 1)));
                assert(digits_value(d.take(k + 1)) == nv);
                lemma_digits_value_grows(d, k + 1);
                if all_digits(d) {
                    assert(digits_value(d) > 65535);
                }
            }
            return None;
        }
        v = nv;
        i = i + 1;
    }
    proof {
        assert(d.take(n - start) =~= d);
    }
    Some(v as u16)
}

/// The port a text names, 1433 when it names none.
pub open spec fn port_or_default(s: Seq<char>) -> u16 {
    match u16_parsed(s) {
        Some(p) => p,
        None => 1433,
    }
}

fn port_from_text(s: &str) -> (r: u16)
    ensures
        r == port_or_default(s@),
{
    match parse_u16(s) {
        Some(p) => p,
        None => 1433,
    }
}

/// A host name without surrounding `[` and `]`.
pub open spec fn bare_host(s: Seq<char>) -> Seq<char> {
    trimmed_of(trimmed_of(s, '['), ']')
}

/// The settings of a `server` or `host` value: the host, and the port when a
/// comma follows the host; a `tcp:` prefix is dropped.
pub open spec fn server_settings(value: Seq<char>) -> Seq<SettingSpec> {
    let s = trimmed(without_prefixes(value, "tcp:"@));
    match first_index(s, ',') {
        Some(p) => seq![
            SettingSpec::Host(bare_host(trimmed(s.take(p)))),
            SettingSpec::Port(port_or_default(trimmed(s.skip(p + 1)))),
        ],
        None => seq![SettingSpec::Host(bare_host(s))],
    }
}

/// The key (trimmed, lower case) and value (trimmed) of a `key=value` piece.
pub open spec fn key_value(piece: Seq<char>) -> Option<(Seq<char>, Seq<char>)> {
    let t = trimmed(piece);
    if t.len() == 0 {
        None
    } else {
        match first_index(t, '=') {
            Some(i) => Some((lower_text(trimmed(t.take(i))), trimmed(t.skip(i + 1)))),
            None => None,
        }
    }
}

/// An `encrypt` value turns encryption on unless it is `off`, `false` or `no`
/// (in any case).
pub open spec fn encryption_on(value: Seq<char>) -> bool {
    let l = lower_text(value);
    l != "off"@ && l != "false"@ && l != "no"@
}

/// The encryption level an `encrypt` value asks for: required when on, else
/// only the login.
pub open spec fn encryption_level(value: Seq<char>) -> EncryptionLevel {
    if encryption_on(value) {
        EncryptionLevel::Required
    } else {
        EncryptionLevel::Off
    }
}

/// A `trust_cert` value asks to trust the certificate when it is `true` or
/// `yes` (in any case).
pub open spec fn trusts_certificate(value: Seq<char>) -> bool {
    let l = lower_text(value);
    l == "true"@ || l == "yes"@
}

/// The settings of one `key=value` pair; keys the application does not know
/// give none.
pub open spec fn pair_settings(key: Seq<char>, value: Seq<char>) -> Seq<SettingSpec> {
    if key == "server"@ || key == "host"@ {
        server_settings(value)
    } else if key == "port"@ {
        seq![SettingSpec::Port(port_or_default(value))]
    } else if key == "database"@ || key == "db"@ {
        seq![SettingSpec::Database(value)]
    } else if key == "encrypt"@ {
        seq![SettingSpec::Encryption(encryption_level(value))]
    } else if key == "trust_cert"@ {
        if trusts_certificate(value) {
            seq![SettingSpec::TrustCert]
        } else {
            Seq::empty()
        }
    } else {
        Seq::empty()
    }
}

/// An `encrypt` pair turns encryption off exactly when its value, in lower
/// case, is `off`, `false` or `no`; any other value requires encryption.
pub proof fn encrypt_value_sets_encryption(value: Seq<char>)
    ensures
        pair_settings("encrypt"@, value) == seq![
            SettingSpec::Encryption(
                if lower_text(value) == "off"@ || lower_text(value) == "false"@ || lower_text(value)
                    == "no"@ {
                    EncryptionLevel::Off
                } else {
                    EncryptionLevel::Required
                },
            ),
        ],
{
    reveal_strlit("encrypt");
    reveal_strlit("server");
    reveal_strlit("host");
    reveal_strlit("port");
    reveal_strlit("database");
    reveal_strlit("db");
    assert("encrypt"@.len() == 7);
    assert("encrypt"@ != "server"@ && "encrypt"@ != "host"@ && "encrypt"@ != "port"@);
    assert("encrypt"@ != "database"@ && "encrypt"@ != "db"@);
}

pub open spec fn piece_settings(piece: Seq<char>) -> Seq<SettingSpec> {
    match key_value(piece) {
        Some((k, v)) => pair_settings(k, v),
        None => Seq::empty(),
    }
}

pub open spec fn is_user_key(k: Seq<char>) -> bool {
    k == "uid"@ || k == "user"@ || k == "username"@
}

pub open spec fn is_password_key(k: Seq<char>) -> bool {
    k == "pwd"@ || k == "password"@
}

pub open spec fn piece_user(piece: Seq<char>) -> Option<Seq<char>> {
    match key_value(piece) {
        Some((k, v)) => if is_user_key(k) {
            Some(v)
        } else {
            None
        },
        None => None,
    }
}

pub open spec fn piece_password(piece: Seq<char>) -> Option<Seq<char>> {
    match key_value(piece) {
        Some((k, v)) => if is_password_key(k) {
            Some(v)
        } else {
            None
        },
        None => None,
    }
}

/// The settings of the pieces, in order.
pub open spec fn settings_of_pieces(pieces: Seq<Seq<char>>) -> Seq<SettingSpec>
    decreases pieces.len(),
{
    if pieces.len() == 0 {
        Seq::empty()
    } else {
        settings_of_pieces(pieces.drop_last()) + piece_settings(pieces.last())
    }
}

/// The last user name the pieces give.
pub open spec fn last_user(pieces: Seq<Seq<char>>) -> Option<Seq<char>>
    decreases pieces.len(),
{
    if pieces.len() == 0 {
        None
    } else {
        match piece_user(pieces.last()) {
            Some(u) => Some(u),
            None => last_user(pieces.drop_last()),
        }
    }
}

/// The last password the pieces give.
pub open spec fn last_password(pieces: Seq<Seq<char>>) -> Option<Seq<char>>
    decreases pieces.len(),
{
    if pieces.len() == 0 {
        None
    } else {
        match piece_password(pieces.last()) {
            Some(p) => Some(p),
            None => last_password(pieces.drop_last()),
        }
    }
}

/// Splitting `s` at every `c`: the pieces completed so far and where the
/// current piece starts.
pub open spec fn split_state(s: Seq<char>, c: char) -> (Seq<Seq<char>>, int)
    decreases s.len(),
{
    if s.len() == 0 {
        (Seq::empty(), 0)
    } else {
        let (ps, st) = split_state(s.drop_last(), c);
        if s.last() == c {
            (ps.push(s.subrange(st, s.len() - 1)), s.len() as int)
        } else {
            (ps, st)
        }
    }
}

/// The pieces of `s` between the occurrences of `c` (as `str::split`).
pub open spec fn split_on(s: Seq<char>, c: char) -> Seq<Seq<char>> {
    let (ps, st) = split_state(s, c);
    ps.push(s.subrange(st, s.len() as int))
}

/// A connection string naming a driver or a braced server is an ADO.NET one.
pub open spec fn is_ado_string(conn: Seq<char>) -> bool {
    has_infix(lower_text(conn), "driver="@) || has_infix(lower_text(conn), "server={"@)
}

/// How the pool manager is built from `conn`: by the driver for an ADO.NET
/// string; otherwise from the `key=value` pairs separated by `;`, applied in
/// order, with the last user name and the last password when both are given.
pub open spec fn connection_plan(conn: Seq<char>) -> PlanSpec {
    if is_ado_string(conn) {
        PlanSpec::Ado
    } else {
        let ps = split_on(conn, ';');
        PlanSpec::Settings(
            settings_of_pieces(ps),
            match (last_user(ps), last_password(ps)) {
                (Some(u), Some(p)) => Some((u, p)),
                _ => None,
            },
        )
    }
}

fn push_server_settings(settings: &mut Vec<ConnectionSetting>, value: &str)
    ensures
        settings_view(final(settings)@) == settings_view(old(settings)@) + server_settings(value@),
{
    proof {
        reveal_strlit("tcp:");
    }
    let s = trim(strip_prefixes(value, "tcp:"));
    let ghost before = settings_view(settings@);
    match find_char(s, ',') {
        Some(p) => {
            let n = s.unicode_len();
            proof {
                crate::text::lemma_first_index(s@, ',');
            }
            let host_part = trim(s.substring_char(0, p));
            let host = trim_char(trim_char(host_part, '['), ']');
            let port = port_from_text(trim(s.substring_char(p + 1, n)));
            settings.push(ConnectionSetting::Host(host.to_owned()));
            settings.push(ConnectionSetting::Port(port));
            proof {
                assert(s@.subrange(0, p as int) =~= s@.take(p as int));
                assert(s@.subrange(p + 1, n as int) =~= s@.skip(p + 1));
                assert(settings_view(settings@) =~= before + server_settings(value@));
            }
        },
        None => {
            let host = trim_char(trim_char(s, '['), ']');
            settings.push(ConnectionSetting::Host(host.to_owned()));
            proof {
                assert(settings_view(settings@) =~= before + server_settings(value@));
            }
        },
    }
}

/// The keys of a connection string the application knows are distinct texts.
proof fn lemma_known_keys_distinct()
    ensures
        "server"@ != "host"@,
        "server"@ != "port"@,
        "server"@ != "uid"@,
        "server"@ != "user"@,
        "server"@ != "username"@,
        "server"@ != "pwd"@,
        "server"@ != "password"@,
        "server"@ != "database"@,
        "server"@ != "db"@,
        "server"@ != "encrypt"@,
        "server"@ != "trust_cert"@,
        "host"@ != "port"@,
        "host"@ != "uid"@,
        "host"@ != "user"@,
        "host"@ != "username"@,
        "host"@ != "pwd"@,
        "host"@ != "password"@,
        "host"@ != "database"@,
        "host"@ != "db"@,
        "host"@ != "encrypt"@,
        "host"@ != "trust_cert"@,
        "port"@ != "uid"@,
        "port"@ != "user"@,
        "port"@ != "username"@,
        "port"@ != "pwd"@,
        "port"@ != "password"@,
        "port"@ != "database"@,
        "port"@ != "db"@,
        "port"@ != "encrypt"@,
        "port"@ != "trust_cert"@,
        "uid"@ != "user"@,
        "uid"@ != "username"@,
        "uid"@ != "pwd"@,
        "uid"@ != "password"@,
        "uid"@ != "database"@,
        "uid"@ != "db"@,
        "uid"@ != "encrypt"@,
        "uid"@ != "trust_cert"@,
        "user"@ != "username"@,
        "user"@ != "pwd"@,
        "user"@ != "password"@,
        "user"@ != "database"@,
        "user"@ != "db"@,
        "user"@ != "encrypt"@,
        "user"@ != "trust_cert"@,
        "username"@ != "pwd"@,
        "username"@ != "password"@,
        "username"@ != "database"@,
        "username"@ != "db"@,
        "username"@ != "encrypt"@,
        "username"@ != "trust_cert"@,
        "pwd"@ != "password"@,
        "pwd"@ != "database"@,
        "pwd"@ != "db"@,
        "pwd"@ != "encrypt"@,
        "pwd"@ != "trust_cert"@,
        "password"@ != "database"@,
        "password"@ != "db"@,
        "password"@ != "encrypt"@,
        "password"@ != "trust_cert"@,
        "database"@ != "db"@,
        "database"@ != "encrypt"@,
        "database"@ != "trust_cert"@,
        "db"@ != "encrypt"@,
        "db"@ != "trust_cert"@,
        "encrypt"@ != "trust_cert"@,
{
    reveal_strlit("server");
    reveal_strlit("host");
    reveal_strlit("port");
    reveal_strlit("uid");
    reveal_strlit("user");
    reveal_strlit("username");
    reveal_strlit("pwd");
    reveal_strlit("password");
    reveal_strlit("database");
    reveal_strlit("db");
    reveal_strlit("encrypt");
    reveal_strlit("trust_cert");
    assert("server"@.len() != "host"@.len());
    assert("server"@.len() != "port"@.len());
    assert("server"@.len() != "uid"@.len());
    assert("server"@.len() != "user"@.len());
    assert("server"@.len() != "username"@.len());
    assert("server"@.len() != "pwd"@.len());
    assert("server"@.len() != "password"@.len());
    assert("server"@.len() != "database"@.len());
    assert("server"@.len() != "db"@.len());
    assert("server"@.len() != "encrypt"@.len());
    assert("server"@.len() != "trust_cert"@.len());
    assert("host"@[0] != "port"@[0]);
    assert("host"@.len() != "uid"@.len());
    assert("host"@[0] != "user"@[0]);
    assert("host"@.len() != "username"@.len());
    assert("host"@.len() != "pwd"@.len());
    assert("host"@.len() != "password"@.len());
    assert("host"@.len() != "database"@.len());
    assert("host"@.len() != "db"@.len());
    assert("host"@.len() != "encrypt"@.len());
    assert("host"@.len() != "trust_cert"@.len());
    assert("port"@.len() != "uid"@.len());
    assert("port"@[0] != "user"@[0]);
    assert("port"@.len() != "username"@.len());
    assert("port"@.len() != "pwd"@.len());
    assert("port"@.len() != "password"@.len());
    assert("port"@.len() != "database"@.len());
    assert("port"@.len() != "db"@.len());
    assert("port"@.len() != "encrypt"@.len());
    assert("port"@.len() != "trust_cert"@.len());
    assert("uid"@.len() != "user"@.len());
    assert("uid"@.len() != "username"@.len());
    assert("uid"@[0] != "pwd"@[0]);
    assert("uid"@.len() != "password"@.len());
    assert("uid"@.len() != "database"@.len());
    assert("uid"@.len() != "db"@.len());
    assert("uid"@.len() != "encrypt"@.len());
    assert("uid"@.len() != "trust_cert"@.len());
    assert("user"@.len() != "username"@.len());
    assert("user"@.len() != "pwd"@.len());
    assert("user"@.len() != "password"@.len());
    assert("user"@.len() != "database"@.len());
    assert("user"@.len() != "db"@.len());
    assert("user"@.len() != "encrypt"@.len());
    assert("user"@.len() != "trust_cert"@.len());
    assert("username"@.len() != "pwd"@.len());
    assert("username"@[0] != "password"@[0]);
    assert("username"@[0] != "database"@[0]);
    assert("username"@.len() != "db"@.len());
    assert("username"@.len() != "encrypt"@.len());
    assert("username"@.len() != "trust_cert"@.len());
    assert("pwd"@.len() != "password"@.len());
    assert("pwd"@.len() != "database"@.len());
    assert("pwd"@.len() != "db"@.len());
    assert("pwd"@.len() != "encrypt"@.len());
    assert("pwd"@.len() != "trust_cert"@.len());
    assert("password"@[0] != "database"@[0]);
    assert("password"@.len() != "db"@.len());
    assert("password"@.len() != "encrypt"@.len());
    assert("password"@.len() != "trust_cert"@.len());
    assert("database"@.len() != "db"@.len());
    assert("database"@.len() != "encrypt"@.len());
    assert("database"@.len() != "trust_cert"@.len());
    assert("db"@.len() != "encrypt"@.len());
    assert("db"@.len() != "trust_cert"@.len());
    assert("encrypt"@.len() != "trust_cert"@.len());
}

/// Applies one piece of a connection string.
fn apply_piece(
    piece: &str,
    settings: &mut Vec<ConnectionSetting>,
    user: &mut Option<String>,
    password: &mut Option<String>,
)
    ensures
        settings_view(final(settings)@) == settings_view(old(settings)@) + piece_settings(piece@),
        text_view(*final(user)) == (match piece_user(piece@) {
            Some(u) => Some(u),
            None => text_view(*old(user)),
        }),
        text_view(*final(password)) == (match piece_password(piece@) {
            Some(p) => Some(p),
            None => text_view(*old(password)),
        }),
{
    let ghost before = settings_view(settings@);
    let t = trim(piece);
    if t.is_empty() {
        assert(before + piece_settings(piece@) =~= before);
        return ;
    }
    let eq = match find_char(t, '=') {
        Some(i) => i,
        None => {
            assert(before + piece_settings(piece@) =~= before);
            return ;
        },
    };
    proof {
        crate::text::lemma_first_index(t@, '=');
    }
    let n = t.unicode_len();
    let key = lower(trim(t.substring_char(0, eq)));
    let value = trim(t.substring_char(eq + 1, n));
    proof {
        assert(t@.subrange(0, eq as int) =~= t@.take(eq as int));
        assert(t@.subrange(eq + 1, n as int) =~= t@.skip(eq + 1));
        assert(key_value(piece@) == Some((key@, value@)));
        lemma_known_keys_distinct();
    }
    let k = key.as_str();
    if same_text(k, "server") || same_text(k, "host") {
        push_server_settings(settings, value);
    } else if same_text(k, "port") {
        settings.push(ConnectionSetting::Port(port_from_text(value)));
        assert(settings_view(settings@) =~= before + piece_settings(piece@));
    } else if same_text(k, "uid") || same_text(k, "user") || same_text(k, "username") {
        *user = Some(value.to_owned());
        assert(pair_settings(key@, value@) =~= Seq::empty());
        assert(before + piece_settings(piece@) =~= before);
    } else if same_text(k, "pwd") || same_text(k, "password") {
        *password = Some(value.to_owned());
        assert(before + piece_settings(piece@) =~= before);
    } else if same_text(k, "database") || same_text(k, "db") {
        settings.push(ConnectionSetting::Database(value.to_owned()));
        assert(settings_view(settings@) =~= before + piece_settings(piece@));
    } else if same_text(k, "encrypt") {
        let l = lower(value);
        let on = !(same_text(l.as_str(), "off") || same_text(l.as_str(), "false") || same_text(
            l.as_str(),
            "no",
        ));
        let level = if on {
            EncryptionLevel::Required
        } else {
            EncryptionLevel::Off
        };
        settings.push(ConnectionSetting::Encryption(level));
        assert(settings_view(settings@) =~= before + piece_settings(piece@));
    } else if same_text(k, "trust_cert") {
        let l = lower(value);
        if same_text(l.as_str(), "true") || same_text(l.as_str(), "yes") {
            settings.push(ConnectionSetting::TrustCert);
            assert(settings_view(settings@) =~= before + piece_settings(piece@));
        } else {
            assert(before + piece_settings(piece@) =~= before);
        }
    } else {
        assert(before + piece_settings(piece@) =~= before);
    }
}

/// Reads a connection string: an ADO.NET string (one naming `driver=` or
/// `server={`) is left to the driver; otherwise the `key=value` pairs
/// separated by `;` give the settings, in order, and the credentials.
pub fn plan_connection(conn: &str) -> (r: ConnectionPlan)
    ensures
        r@ == connection_plan(conn@),
{
    let lc = lower(conn);
    if contains_text(lc.as_str(), "driver=") || contains_text(lc.as_str(), "server={") {
        return ConnectionPlan::Ado;
    }
    let n = conn.unicode_len();
    let mut settings: Vec<ConnectionSetting> = Vec::new();
    let mut user: Option<String> = None;
    let mut password: Option<String> = None;
    let mut start: usize = 0;
    let mut i: usize = 0;
    let ghost mut pieces: Seq<Seq<char>> = Seq::empty();
    proof {
        assert(conn@.take(0) =~= Seq::<char>::empty());
        assert(settings_view(settings@) =~= Seq::<SettingSpec>::empty());
    }
    while i < n
        invariant
            n == conn@.len(),
            0 <= start <= i <= n,
            split_state(conn@.take(i as int), ';') == (pieces, start as int),
            settings_view(settings@) == settings_of_pieces(pieces),
            text_view(user) == last_user(pieces),
            text_view(password) == last_password(pieces),
        decreases n - i,
    {
        let c = conn.get_char(i);
        proof {
            let t = conn@.take(i + 1);
            assert(t.drop_last() =~= conn@.take(i as int));
            assert(t.last() == c);
        }
        if c == ';' {
            let piece = conn.substring_char(start, i);
            apply_piece(piece, &mut settings, &mut user, &mut password);
            proof {
                let t = conn@.take(i + 1);
                assert(t.subrange(start as int, t.len() - 1) =~= piece@);
                let np = pieces.push(piece@);
                assert(np.drop_last() =~= pieces);
                pieces = np;
            }
            start = i + 1;
        }
        i = i + 1;
    }
    let piece = conn.substring_char(start, n);
    apply_piece(piece, &mut settings, &mut user, &mut password);
    proof {
        assert(conn@.take(n as int) =~= conn@);
        let np = pieces.push(piece@);
        assert(np.drop_last() =~= pieces);
        assert(np =~= split_on(conn@, ';'));
    }
    let credentials = match (user, password) {
        (Some(u), Some(p)) => Some((u, p)),
        _ => None,
    };
    ConnectionPlan::Settings { settings, credentials }
}

// ── The pool manager ──────────────────────────────────────────────

/// Declares `deadpool_tiberius::Manager`, the pool's builder, to Verus as an
/// opaque type.
#[verifier::external_type_specification]
#[verifier::external_body]
pub struct ExManager(deadpool_tiberius::Manager);

/// Which certificates the connection trusts.
#[derive(Debug, Clone, Copy, PartialEq, Eq, Structural)]
pub enum TrustSetting {
    /// Certificates are checked against the system's store.
    Default,
    /// Every certificate is trusted.
    TrustAll,
    /// Certificates are checked against a given CA certificate.
    CaCertificate,
}

/// How the connection logs in.
pub enum LoginSetting {
    /// No login was set.
    NoLogin,
    /// A SQL Server login with a user name and a password.
    SqlServer(Seq<char>, Seq<char>),
}

/// The connection settings a pool manager holds: host, port, database,
/// encryption level, trusted certificates and login.
pub struct ManagerSettings {
    pub host: Option<Seq<char>>,
    pub port: Option<u16>,
    pub database: Option<Seq<char>>,
    pub encryption: EncryptionLevel,
    pub trust: TrustSetting,
    pub login: LoginSetting,
}

/// The connection settings that the driver configuration inside a
/// `deadpool_tiberius::Manager` holds.
pub uninterp spec fn manager_settings(m: deadpool_tiberius::Manager) -> ManagerSettings;

/// The settings of a new manager: no host, port or database set, encryption
/// required, the system's certificate store, no login.
pub open spec fn new_manager_settings() -> ManagerSettings {
    ManagerSettings {
        host: None,
        port: None,
        database: None,
        encryption: EncryptionLevel::Required,
        trust: TrustSetting::Default,
        login: LoginSetting::NoLogin,
    }
}

/// The settings after applying one connection setting.
pub open spec fn with_setting(ms: ManagerSettings, s: SettingSpec) -> ManagerSettings {
    match s {
        SettingSpec::Host(h) => ManagerSettings { host: Some(h), ..ms },
        SettingSpec::Port(p) => ManagerSettings { port: Some(p), ..ms },
        SettingSpec::Database(d) => ManagerSettings { database: Some(d), ..ms },
        SettingSpec::Encryption(l) => ManagerSettings { encryption: l, ..ms },
        SettingSpec::TrustCert => ManagerSettings { trust: TrustSetting::TrustAll, ..ms },
    }
}

/// The settings after applying the connection settings in order.
pub open spec fn with_settings(ms: ManagerSettings, ss: Seq<SettingSpec>) -> ManagerSettings
    decreases ss.len(),
{
    if ss.len() == 0 {
        ms
    } else {
        with_setting(with_settings(ms, ss.drop_last()), ss.last())
    }
}

/// The settings of the manager built for a plan of settings and credentials:
/// a new manager with the settings applied in order, then the login.
pub open spec fn planned_settings(
    ss: Seq<SettingSpec>,
    credentials: Option<(Seq<char>, Seq<char>)>,
) -> ManagerSettings {
    let ms = with_settings(new_manager_settings(), ss);
    match credentials {
        Some((u, p)) => ManagerSettings { login: LoginSetting::SqlServer(u, p), ..ms },
        None => ms,
    }
}

/// What `connection_string::AdoNetString::from_str`, the driver's reader of
/// ADO.NET strings, gives for the keys `trustservercertificate` and
/// `trustservercertificateca`; nothing when it rejects the string.
pub uninterp spec fn ado_trust_values(s: Seq<char>) -> Option<(Option<Seq<char>>, Option<Seq<char>>)>;

/// An ADO.NET string that asks both to trust every certificate and to trust a
/// given CA certificate: the driver's configuration refuses the two together.
pub open spec fn ado_trust_conflict(s: Seq<char>) -> bool {
    match ado_trust_values(s) {
        Some((Some(t), Some(_))) => {
            let l = lower_text(trimmed(t));
            l == "true"@ || l == "yes"@
        },
        _ => false,
    }
}

/// The error `build_manager` gives for an ADO.NET string with both trust
/// options: the driver's own message for that case.
pub open spec fn trust_conflict_text() -> Seq<char> {
    "'trust_cert' and 'trust_cert_ca' are mutual exclusive! Only use one."@
}

/// Calls `connection_string::AdoNetString::from_str` and reads the values of
/// the keys `trustservercertificate` and `trustservercertificateca` (the
/// reader stores keys in lower case). Claims the result is named by
/// `ado_trust_values`.
#[verifier::external_body]
fn ado_trust_entries(s: &str) -> (r: Option<(Option<String>, Option<String>)>)
    ensures
        match r {
            None => ado_trust_values(s@) is None,
            Some((a, b)) => ado_trust_values(s@) == Some((text_view(a), text_view(b))),
        },
{
    match s.parse::<connection_string::AdoNetString>() {
        Ok(d) => Some(
            (d.get("trustservercertificate").cloned(), d.get("trustservercertificateca").cloned()),
        ),
        Err(_) => None,
    }
}

/// Whether an ADO.NET string asks both to trust every certificate and to
/// trust a given CA certificate.
fn has_trust_conflict(s: &str) -> (r: bool)
    ensures
        r == ado_trust_conflict(s@),
{
    match ado_trust_entries(s) {
        Some((Some(t), Some(_))) => {
            let l = lower(trim(t.as_str()));
            same_text(l.as_str(), "true") || same_text(l.as_str(), "yes")
        },
        _ => false,
    }
}

/// What `deadpool_tiberius::Manager::from_ado_string(s)` gives: the settings
/// of the manager it reads from `s`, or the text of its error.
pub uninterp spec fn ado_reading(s: Seq<char>) -> Result<ManagerSettings, Seq<char>>;

/// Calls `deadpool_tiberius::Manager::from_ado_string`, turning its error into
/// text. It is not called on a string asking for both trust options, on which
/// the driver's configuration panics. Claims that the result, the manager's
/// settings or the error text, is the one named by `ado_reading` for `s`.
#[verifier::external_body]
fn manager_from_ado_string(s: &str) -> (r: Result<deadpool_tiberius::Manager, String>)
    requires
        !ado_trust_conflict(s@),
    ensures
        match r {
            Ok(m) => ado_reading(s@) == Ok::<ManagerSettings, Seq<char>>(manager_settings(m)),
            Err(e) => ado_reading(s@) == Err::<ManagerSettings, Seq<char>>(e@),
        },
{
    match deadpool_tiberius::Manager::from_ado_string(s) {
        Ok(m) => Ok(m),
        Err(e) => Err(e.to_string()),
    }
}

/// `s` with two pairs appended that set the trust option and the encryption
/// to `false` (the reader of ADO.NET strings lets a later key win, and a
/// string it accepts ends either in a `;` or in a pair).
pub open spec fn trust_probe(s: Seq<char>) -> Seq<char> {
    let sep = if s.len() > 0 && s.last() == ';' {
        Seq::empty()
    } else {
        seq![';']
    };
    s + sep + "TrustServerCertificate=false;Encrypt=false"@
}

fn trust_probe_text(s: &str) -> (r: String)
    ensures
        r@ == trust_probe(s@),
{
    let mut out = String::from_str(s);
    let n = s.unicode_len();
    if !(n > 0 && s.get_char(n - 1) == ';') {
        out.append(";");
    }
    out.append("TrustServerCertificate=false;Encrypt=false");
    proof {
        reveal_strlit(";");
        reveal_strlit("");
    }
    out
}

/// The answer to an ADO.NET string that asks for both trust options. The
/// driver reads the server value before its trust options, so it is asked to
/// read the string with the trust option set to `false`: where that reading
/// fails, its error is the one the driver gives for the string itself; where
/// it succeeds, the driver would go on to its refusal of the two options
/// together, whose message is given.
pub open spec fn trust_conflict_answer(s: Seq<char>) -> Seq<char> {
    let p = trust_probe(s);
    if ado_trust_conflict(p) {
        trust_conflict_text()
    } else {
        match ado_reading(p) {
            Ok(_) => trust_conflict_text(),
            Err(x) => x,
        }
    }
}

/// Calls `deadpool_tiberius::Manager::new`. Claims the settings of a new
/// driver configuration: nothing set, encryption required, default trust, no
/// login.
#[verifier::external_body]
fn manager_new() -> (r: deadpool_tiberius::Manager)
    ensures
        manager_settings(r) == new_manager_settings(),
{
    deadpool_tiberius::Manager::new()
}

/// Calls `Manager::host`. Claims it sets the host and keeps the rest.
#[verifier::external_body]
fn manager_host(m: deadpool_tiberius::Manager, host: &str) -> (r: deadpool_tiberius::Manager)
    ensures
        manager_settings(r) == (ManagerSettings { host: Some(host@), ..manager_settings(m) }),
{
    m.host(host)
}

/// Calls `Manager::port`. Claims it sets the port and keeps the rest.
#[verifier::external_body]
fn manager_port(m: deadpool_tiberius::Manager, port: u16) -> (r: deadpool_tiberius::Manager)
    ensures
        manager_settings(r) == (ManagerSettings { port: Some(port), ..manager_settings(m) }),
{
    m.port(port)
}

/// Calls `Manager::database`. Claims it sets the database and keeps the rest.
#[verifier::external_body]
fn manager_database(m: deadpool_tiberius::Manager, database: &str) -> (r:
    deadpool_tiberius::Manager)
    ensures
        manager_settings(r) == (ManagerSettings {
            database: Some(database@),
            ..manager_settings(m)
        }),
{
    m.database(database)
}

/// Calls `Manager::encryption` with the driver's level of the same name.
/// Claims it sets the encryption level and keeps the rest.
#[verifier::external_body]
fn manager_encryption(m: deadpool_tiberius::Manager, level: EncryptionLevel) -> (r:
    deadpool_tiberius::Manager)
    ensures
        manager_settings(r) == (ManagerSettings { encryption: level, ..manager_settings(m) }),
{
    m.encryption(
        match level {
            EncryptionLevel::Off => tiberius::EncryptionLevel::Off,
            EncryptionLevel::On => tiberius::EncryptionLevel::On,
            EncryptionLevel::NotSupported => tiberius::EncryptionLevel::NotSupported,
            EncryptionLevel::Required => tiberius::EncryptionLevel::Required,
        },
    )
}

/// Calls `Manager::trust_cert`, which panics when a CA certificate was set
/// before. Claims it makes every certificate trusted and keeps the rest.
#[verifier::external_body]
fn manager_trust_cert(m: deadpool_tiberius::Manager) -> (r: deadpool_tiberius::Manager)
    requires
        manager_settings(m).trust != TrustSetting::CaCertificate,
    ensures
        manager_settings(r) == (ManagerSettings {
            trust: TrustSetting::TrustAll,
            ..manager_settings(m)
        }),
{
    m.trust_cert()
}

/// Calls `Manager::basic_authentication`. Claims it sets a SQL Server login
/// with the user name and password, and keeps the rest.
#[verifier::external_body]
fn manager_basic_authentication(
    m: deadpool_tiberius::Manager,
    username: &str,
    password: &str,
) -> (r: deadpool_tiberius::Manager)
    ensures
        manager_settings(r) == (ManagerSettings {
            login: LoginSetting::SqlServer(username@, password@),
            ..manager_settings(m)
        }),
{
    m.basic_authentication(username, password)
}

proof fn lemma_settings_keep_trust(ss: Seq<SettingSpec>)
    ensures
        with_settings(new_manager_settings(), ss).trust != TrustSetting::CaCertificate,
    decreases ss.len(),
{
    if ss.len() > 0 {
        lemma_settings_keep_trust(ss.drop_last());
    }
}

/// Builds the pool manager for a connection string. An ADO.NET string is read
/// by the driver, and gives the manager it reads or fails as its reading does;
/// one that asks both to trust every certificate and a given CA certificate,
/// on which the driver panics once it has read the server value, is refused
/// (see `trust_conflict_answer`). Any other string gives a new manager with
/// the settings of `plan_connection` applied in order, then the credentials.
pub fn build_manager(conn_string: &str) -> (r: Result<deadpool_tiberius::Manager, DbError>)
    ensures
        match connection_plan(conn_string@) {
            PlanSpec::Ado => if ado_trust_conflict(conn_string@) {
                r matches Err(DbError::Connection(e)) && e@ == trust_conflict_answer(conn_string@)
            } else {
                match r {
                    Ok(m) => ado_reading(conn_string@) == Ok::<ManagerSettings, Seq<char>>(
                        manager_settings(m),
                    ),
                    Err(DbError::Connection(e)) => ado_reading(conn_string@) == Err::<
                        ManagerSettings,
                        Seq<char>,
                    >(e@),
                    Err(DbError::Query(_)) => false,
                }
            },
            PlanSpec::Settings(ss, credentials) => r matches Ok(m) && manager_settings(m)
                == planned_settings(ss, credentials),
        },
{
    match plan_connection(conn_string) {
        ConnectionPlan::Ado => {
            if has_trust_conflict(conn_string) {
                let conflict = String::from_str(
                    "'trust_cert' and 'trust_cert_ca' are mutual exclusive! Only use one.",
                );
                let probe = trust_probe_text(conn_string);
                if has_trust_conflict(probe.as_str()) {
                    return Err(DbError::Connection(conflict));
                }
                return match manager_from_ado_string(probe.as_str()) {
                    Ok(_) => Err(DbError::Connection(conflict)),
                    Err(e) => Err(DbError::Connection(e)),
                };
            }
            match manager_from_ado_string(conn_string) {
                Ok(m) => Ok(m),
                Err(e) => Err(DbError::Connection(e)),
            }
        },
        ConnectionPlan::Settings { settings, credentials } => {
            let ghost ss = settings_view(settings@);
            let mut m = manager_new();
            let n = settings.len();
            let mut i: usize = 0;
            proof {
                assert(ss.take(0) =~= Seq::<SettingSpec>::empty());
            }
            while i < n
                invariant
                    n == settings@.len(),
                    ss == settings_view(settings@),
                    0 <= i <= n,
                    manager_settings(m) == with_settings(new_manager_settings(), ss.take(i as int)),
                decreases n - i,
            {
                proof {
                    assert(ss.take(i + 1).drop_last() =~= ss.take(i as int));
                    assert(ss.take(i + 1).last() == settings@[i as int]@);
                    lemma_settings_keep_trust(ss.take(i as int));
                }
                m = match &settings[i] {
                    ConnectionSetting::Host(h) => manager_host(m, h.as_str()),
                    ConnectionSetting::Port(p) => manager_port(m, *p),
                    ConnectionSetting::Database(d) => manager_database(m, d.as_str()),
                    ConnectionSetting::Encryption(level) => manager_encryption(m, *level),
                    ConnectionSetting::TrustCert => manager_trust_cert(m),
                };
                i = i + 1;
            }
            proof {
                assert(ss.take(n as int) =~= ss);
            }
            if let Some((u, p)) = &credentials {
                m = manager_basic_authentication(m, u.as_str(), p.as_str());
            }
            Ok(m)
        },
    }
}

} // verus!
