//! The form fragment through which a fencer's result is entered; its field
//! names are the keys that a submission is decoded from.

use vstd::prelude::*;
use vstd::string::StringExecFns;

use crate::group::GroupFencerResult;
use crate::text::push_char;

verus! {

/// The character of decimal digit `d`.
pub open spec fn digit_char(d: nat) -> char {
    seq!['0', '1', '2', '3', '4', '5', '6', '7', '8', '9'][d as int]
}

/// `n` in decimal, without leading zeros.
pub open spec fn decimal(n: nat) -> Seq<char>
    decreases n,
{
    if n < 10 {
        seq![digit_char(n)]
    } else {
        decimal(n / 10).push(digit_char(n % 10))
    }
}

fn push_digit(s: &mut String, d: u8)
    requires
        d < 10,
    ensures
        final(s)@ == old(s)@.push(digit_char(d as nat)),
{
    let ds = ['0', '1', '2', '3', '4', '5', '6', '7', '8', '9'];
    assert(ds@ =~= seq!['0', '1', '2', '3', '4', '5', '6', '7', '8', '9']);
    push_char(s, ds[d as usize]);
}

/// Appends `v` in decimal to `s`.
pub fn push_decimal(s: &mut String, v: u8)
    ensures
        final(s)@ == old(s)@ + decimal(v as nat),
{
    let ghost n = v as nat;
    if v >= 100 {
        push_digit(s, v / 100);
        push_digit(s, (v / 10) % 10);
        push_digit(s, v % 10);
        assert((n / 10) / 10 == n / 100 && n / 100 < 10 && n / 10 >= 10);
        assert(decimal(n / 100) == seq![digit_char(n / 100)]);
        assert(decimal(n / 10) == decimal(n / 100).push(digit_char((n / 10) % 10)));
        assert(decimal(n) == decimal(n / 10).push(digit_char(n % 10)));
        assert(decimal(n) =~= seq![digit_char(n / 100), digit_char((n / 10) % 10), digit_char(n % 10)]);
    } else if v >= 10 {
        push_digit(s, v / 10);
        push_digit(s, v % 10);
        assert(decimal(n / 10) == seq![digit_char(n / 10)]);
        assert(decimal(n) == decimal(n / 10).push(digit_char(n % 10)));
        assert(decimal(n) =~= seq![digit_char(n / 10), digit_char(n % 10)]);
    } else {
        push_digit(s, v);
        assert(decimal(n) =~= seq![digit_char(n)]);
    }
    assert(final(s)@ =~= old(s)@ + decimal(n));
}

/// The form fragment of one fencer: a caption (in a `lable` element) and the three
/// fields, named after the fencer.
pub open spec fn form_entry(name: Seq<char>, wins: u8, given: u8, taken: u8) -> Seq<char> {
    "<div>\n"@ + "<lable>"@ + name + ":</lable>\n"@
        + "<input name=\""@ + name + "_wins\" value=\""@ + decimal(wins as nat) + "\">\n"@
        + "<input name=\""@ + name + "_given\" value=\""@ + decimal(given as nat) + "\">\n"@
        + "<input name=\""@ + name + "_taken\" value=\""@ + decimal(taken as nat) + "\">\n"@
        + "</div>\n"@
}

/// The entry page: a form with the fragment `entry` and a submit button.
pub open spec fn form_page(entry: Seq<char>) -> Seq<char> {
    "<form action=\"/data_in\" method=\"post\">"@ + entry
        + "<input type=\"submit\" value=\"Submit\">"@ + "</form>"@
}

impl GroupFencerResult {
    /// The form fragment that lets this result be entered and submitted again.
    pub fn to_form_entry(&self) -> (r: String)
        ensures
            r@ == form_entry(self.name@, self.wins, self.given, self.taken),
    {
        let name = self.name.as_str();
        let mut out = String::new();
        out.append("<div>\n");
        out.append("<lable>");
        out.append(name);
        out.append(":</lable>\n");
        out.append("<input name=\"");
        out.append(name);
        out.append("_wins\" value=\"");
        push_decimal(&mut out, self.wins);
        out.append("\">\n");
        out.append("<input name=\"");
        out.append(name);
        out.append("_given\" value=\"");
        push_decimal(&mut out, self.given);
        out.append("\">\n");
        out.append("<input name=\"");
        out.append(name);
        out.append("_taken\" value=\"");
        push_decimal(&mut out, self.taken);
        out.append("\">\n");
        out.append("</div>\n");
        assert(out@ =~= form_entry(self.name@, self.wins, self.given, self.taken));
        out
    }
}

/// The entry page, with an empty result for one fencer.
pub fn index() -> (r: String)
    ensures
        r@ == form_page(form_entry("Johann"@, 0, 0, 0)),
{
    let res = GroupFencerResult { name: String::from_str("Johann"), wins: 0, given: 0, taken: 0 };
    let mut form = String::new();
    form.append("<form action=\"/data_in\" method=\"post\">");
    let entry = res.to_form_entry();
    form.append(entry.as_str());
    form.append("<input type=\"submit\" value=\"Submit\">");
    form.append("</form>");
    assert(form@ =~= form_page(form_entry("Johann"@, 0, 0, 0)));
    form
}

} // verus!
