//! Request shapes of the web API and the decisions its handlers take.

use vstd::prelude::*;

use crate::db::InvoiceQuery;

verus! {

/// One invoice the operator selected to mark as paid.
#[derive(Debug)]
pub struct PayRow {
    pub branch: String,
    pub supplier_code: String,
    pub invoice_number: String,
    pub label: String,
}

/// A request to mark invoices as paid.
#[derive(Debug)]
pub struct PayRequest {
    pub rows: Vec<PayRow>,
}

/// The canonical key of an invoice: `{branch}|{supplier_code}|{invoice_number}`.
pub open spec fn invoice_key(branch: Seq<char>, supplier_code: Seq<char>, invoice_number: Seq<char>) -> Seq<
    char,
> {
    branch + "|"@ + supplier_code + "|"@ + invoice_number
}

/// The canonical key of the invoice of a pay row.
pub open spec fn row_key(r: PayRow) -> Seq<char> {
    invoice_key(r.branch@, r.supplier_code@, r.invoice_number@)
}

/// A row names an invoice number.
pub open spec fn is_payable(r: PayRow) -> bool {
    r.invoice_number@.len() > 0
}

/// The rows that name an invoice number, in order.
pub open spec fn payable(rows: Seq<PayRow>) -> Seq<PayRow> {
    rows.filter(|x: PayRow| is_payable(x))
}

impl PayRow {
    /// The canonical key of this row's invoice.
    pub fn key(&self) -> (r: String)
        ensures
            r@ == row_key(*self),
    {
        let mut k = self.branch.clone();
        k.append("|");
        k.append(self.supplier_code.as_str());
        k.append("|");
        k.append(self.invoice_number.as_str());
        k
    }

    /// A copy of the row.
    pub fn duplicate(&self) -> (r: PayRow)
        ensures
            r == *self,
    {
        PayRow {
            branch: self.branch.clone(),
            supplier_code: self.supplier_code.clone(),
            invoice_number: self.invoice_number.clone(),
            label: self.label.clone(),
        }
    }
}

impl PayRequest {
    /// The rows of the request that name an invoice number, in order.
    pub fn payable_rows(&self) -> (r: Vec<PayRow>)
        ensures
            r@ == payable(self.rows@),
    {
        let mut out: Vec<PayRow> = Vec::new();
        let n = self.rows.len();
        let mut i: usize = 0;
        while i < n
            invariant
                n == self.rows@.len(),
                0 <= i <= n,
                out@ == self.rows@.take(i as int).filter(|x: PayRow| is_payable(x)),
            decreases n - i,
        {
            let row = &self.rows[i];
            proof {
                let t = self.rows@.take(i + 1);
                assert(t.drop_last() =~= self.rows@.take(i as int));
                reveal_with_fuel(Seq::<_>::filter, 1);
            }
            if !row.invoice_number.as_str().is_empty() {
                out.push(row.duplicate());
            }
            i = i + 1;
        }
        proof {
            assert(self.rows@.take(n as int) =~= self.rows@);
        }
        out
    }
}

/// The key of a row is its branch, its supplier code and its whole invoice
/// number, joined by `|`: it ends with the invoice number, in full.
pub proof fn row_key_joins_the_invoice_fields(r: PayRow)
    ensures
        row_key(r) == r.branch@ + "|"@ + r.supplier_code@ + "|"@ + r.invoice_number@,
        row_key(r).len() >= r.invoice_number@.len(),
        row_key(r).skip(row_key(r).len() - r.invoice_number@.len()) == r.invoice_number@,
{
    let k = row_key(r);
    let p = r.branch@ + "|"@ + r.supplier_code@ + "|"@;
    assert(k =~= p + r.invoice_number@);
    assert(k.skip(k.len() - r.invoice_number@.len()) =~= r.invoice_number@);
}

/// Rows of one branch and supplier that name different invoices get
/// different keys, so marking one never counts as marking the other.
pub proof fn different_invoices_get_different_keys(a: PayRow, b: PayRow)
    requires
        a.branch@ == b.branch@,
        a.supplier_code@ == b.supplier_code@,
        a.invoice_number@ != b.invoice_number@,
    ensures
        row_key(a) != row_key(b),
{
    row_key_joins_the_invoice_fields(a);
    row_key_joins_the_invoice_fields(b);
    let p = a.branch@ + "|"@ + a.supplier_code@ + "|"@;
    if row_key(a) == row_key(b) {
        assert(row_key(a) =~= p + a.invoice_number@);
        assert(row_key(b) =~= p + b.invoice_number@);
        assert(a.invoice_number@.len() == b.invoice_number@.len());
        assert(a.invoice_number@ =~= b.invoice_number@) by {
            assert forall|i: int| 0 <= i < a.invoice_number@.len() implies a.invoice_number@[i]
                == b.invoice_number@[i] by {
                assert(row_key(a)[p.len() + i] == a.invoice_number@[i]);
                assert(row_key(b)[p.len() + i] == b.invoice_number@[i]);
            }
        }
    }
}

/// The filters of an invoice search once defaults are applied.
#[derive(Debug)]
pub struct InvoiceFilter {
    pub from: String,
    pub to: String,
    pub branch: String,
    pub supplier: String,
}

/// The text of an optional value, `default` when absent.
pub open spec fn text_or(o: Option<String>, default: Seq<char>) -> Seq<char> {
    match o {
        Some(s) => s@,
        None => default,
    }
}

fn text_or_else(o: &Option<String>, default: &str) -> (r: String)
    ensures
        r@ == text_or(*o, default@),
{
    match o {
        Some(s) => s.clone(),
        None => default.to_owned(),
    }
}

impl InvoiceQuery {
    /// The filters of the search: branch and supplier default to `ALL`; none
    /// when the start or the end of the period is missing or empty.
    pub fn resolve(&self) -> (r: Option<InvoiceFilter>)
        ensures
            r is Some <==> text_or(self.from, Seq::empty()).len() > 0 && text_or(
                self.to,
                Seq::empty(),
            ).len() > 0,
            r matches Some(f) ==> {
                &&& f.from@ == text_or(self.from, Seq::empty())
                &&& f.to@ == text_or(self.to, Seq::empty())
                &&& f.branch@ == text_or(self.branch, "ALL"@)
                &&& f.supplier@ == text_or(self.supplier, "ALL"@)
            },
    {
        let from = text_or_else(&self.from, "");
        let to = text_or_else(&self.to, "");
        let branch = text_or_else(&self.branch, "ALL");
        let supplier = text_or_else(&self.supplier, "ALL");
        proof {
            reveal_strlit("");
        }
        if from.as_str().is_empty() || to.as_str().is_empty() {
            return None;
        }
        Some(InvoiceFilter { from, to, branch, supplier })
    }
}

/// The order type a saved configuration has when the request names none.
pub fn default_order_type() -> (r: String)
    ensures
        r@ == "Monthly"@,
{
    String::from_str("Monthly")
}

/// The payment type a saved configuration has when the request names none.
pub fn default_payment_type() -> (r: String)
    ensures
        r@ == "DC"@,
{
    String::from_str("DC")
}

} // verus!
