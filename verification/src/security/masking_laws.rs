//! What a mask leaves in view, and for whom.

use vstd::prelude::*;

use crate::security::masking::{masked_column, ColumnMask, MaskingRule};
use crate::text::texts;

verus! {

/// A partial mask leaves as many items at the two ends as it says and puts
/// asterisks for the others; of a value that is not longer than that it leaves
/// none.
pub proof fn law_partial_mask(prefix: usize, suffix: usize, value: Seq<u8>, i: int)
    requires
        0 <= i < value.len(),
    ensures
        ({
            let r = (ColumnMask::Partial { prefix, suffix }).masked(value);
            &&& r.len() == value.len()
            &&& value.len() > prefix + suffix && (i < prefix || i >= value.len() - suffix) ==> r[i]
                == value[i]
            &&& value.len() > prefix + suffix && prefix <= i < value.len() - suffix ==> r[i] == 42
            &&& value.len() <= prefix + suffix ==> r[i] == 42
        }),
{
}

/// The same of a text.
pub proof fn law_partial_mask_of_text(prefix: usize, suffix: usize, value: Seq<char>, i: int)
    requires
        0 <= i < value.len(),
    ensures
        ({
            let r = (ColumnMask::Partial { prefix, suffix }).masked_text(value);
            &&& r.len() == value.len()
            &&& value.len() > prefix + suffix && (i < prefix || i >= value.len() - suffix) ==> r[i]
                == value[i]
            &&& value.len() > prefix + suffix && prefix <= i < value.len() - suffix ==> r[i] == '*'
            &&& value.len() <= prefix + suffix ==> r[i] == '*'
        }),
{
}

/// A full mask shows asterisks alone, one for an empty value; a mask that nulls
/// shows nothing.
pub proof fn law_full_mask(value: Seq<u8>, text: Seq<char>, i: int)
    ensures
        ColumnMask::Full.masked(value).len() == (if value.len() == 0 {
            1
        } else {
            value.len()
        }),
        0 <= i < ColumnMask::Full.masked(value).len() ==> ColumnMask::Full.masked(value)[i] == 42,
        0 <= i < ColumnMask::Full.masked_text(text).len() ==> ColumnMask::Full.masked_text(text)[i]
            == '*',
        ColumnMask::Null.masked(value).len() == 0,
        ColumnMask::Null.masked_text(text).len() == 0,
{
}

/// A rule without roles is for everyone, one with roles for those alone.
pub proof fn law_roles(rule: MaskingRule, role: Seq<char>)
    ensures
        rule.roles@.len() == 0 ==> rule.covers(role),
        rule.roles@.len() > 0 ==> (rule.covers(role) <==> exists|i: int|
            0 <= i < rule.roles@.len() && (#[trigger] rule.roles@[i])@ == role),
{
    let t = texts(rule.roles@);
    if t.contains(role) {
        let i = t.index_of(role);
        assert(rule.roles@[i]@ == role);
    }
    if exists|i: int| 0 <= i < rule.roles@.len() && (#[trigger] rule.roles@[i])@ == role {
        let i = choose|i: int| 0 <= i < rule.roles@.len() && (#[trigger] rule.roles@[i])@ == role;
        assert(t[i] == role);
    }
}

/// A value is shown as it is where no rule is for its column and the role.
pub proof fn law_unmasked(
    rules: Seq<MaskingRule>,
    column: Seq<char>,
    value: Seq<u8>,
    role: Seq<char>,
)
    requires
        forall|i: int|
            0 <= i < rules.len() ==> (#[trigger] rules[i]).column_name@ != column
                || !rules[i].covers(role),
    ensures
        masked_column(rules, column, value, role) == value,
    decreases rules.len(),
{
    if rules.len() > 0 {
        let rest = rules.drop_first();
        assert forall|i: int| 0 <= i < rest.len() implies (#[trigger] rest[i]).column_name@ != column
            || !rest[i].covers(role) by {
            assert(rest[i] == rules[i + 1]);
        }
        law_unmasked(rest, column, value, role);
        assert(rules[0].column_name@ != column || !rules[0].covers(role));
    }
}

} // verus!
