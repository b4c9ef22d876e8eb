//! Masking of column values for roles.

use vstd::prelude::*;
use vstd::utf8::encode_utf8;

use crate::bytes::{copy_range, push_bytes};
use crate::security::hash::{blake3_hash, blake3_of};
use crate::security::hex::{bytes_to_hex, hex_text};
use crate::text::{chars_of, same_text, texts};

verus! {

/// How a value is masked.
#[derive(Clone, Debug)]
pub enum ColumnMask {
    /// Every byte of a value, or character of a text, becomes an asterisk; an
    /// empty value becomes one asterisk.
    Full,
    /// The first `prefix` and the last `suffix` bytes of a value, or characters
    /// of a text, stay; those between become asterisks. A value with nothing
    /// between becomes asterisks whole.
    Partial { prefix: usize, suffix: usize },
    /// The BLAKE3 digest of the value, in hexadecimal.
    Hash,
    /// No bytes.
    Null,
}

/// A row of asterisks.
pub open spec fn row_of<T>(star: T, n: nat) -> Seq<T> {
    Seq::new(n, |i: int| star)
}

/// A row with the first `prefix` and the last `suffix` items in view.
pub open spec fn in_part<T>(value: Seq<T>, star: T, prefix: nat, suffix: nat) -> Seq<T> {
    if value.len() <= prefix + suffix {
        row_of(star, value.len())
    } else {
        value.take(prefix as int) + row_of(star, (value.len() - prefix - suffix) as nat)
            + value.skip(value.len() - suffix)
    }
}

/// A row with no item in view.
pub open spec fn in_full<T>(value: Seq<T>, star: T) -> Seq<T> {
    row_of(star, if value.len() == 0 {
        1
    } else {
        value.len()
    })
}

impl ColumnMask {
    /// The items that stay add up to a number that the machine holds.
    pub open spec fn fits(self) -> bool {
        match self {
            ColumnMask::Partial { prefix, suffix } => prefix + suffix <= usize::MAX,
            _ => true,
        }
    }

    /// A value under the mask.
    pub open spec fn masked(self, value: Seq<u8>) -> Seq<u8> {
        match self {
            ColumnMask::Full => in_full(value, 42u8),
            ColumnMask::Partial { prefix, suffix } => in_part(
                value,
                42u8,
                prefix as nat,
                suffix as nat,
            ),
            ColumnMask::Hash => encode_utf8(hex_text(blake3_of(value)@)),
            ColumnMask::Null => seq![],
        }
    }

    /// A text under the mask.
    pub open spec fn masked_text(self, value: Seq<char>) -> Seq<char> {
        match self {
            ColumnMask::Full => in_full(value, '*'),
            ColumnMask::Partial { prefix, suffix } => in_part(
                value,
                '*',
                prefix as nat,
                suffix as nat,
            ),
            ColumnMask::Hash => hex_text(blake3_of(encode_utf8(value))@),
            ColumnMask::Null => seq![],
        }
    }

    /// Masks a value.
    pub fn mask(&self, value: &[u8]) -> (r: Vec<u8>)
        requires
            self.fits(),
        ensures
            r@ == self.masked(value@),
    {
        let n: usize = value.len();
        match self {
            ColumnMask::Full => {
                let mut out: Vec<u8> = Vec::new();
                push_stars(&mut out, if n == 0 {
                    1
                } else {
                    n
                });
                assert(out@ =~= self.masked(value@));
                out
            },
            ColumnMask::Partial { prefix, suffix } => {
                let mut out: Vec<u8> = Vec::new();
                if n <= *prefix + *suffix {
                    push_stars(&mut out, n);
                } else {
                    let head: Vec<u8> = copy_range(value, 0, *prefix);
                    let tail: Vec<u8> = copy_range(value, n - *suffix, n);
                    push_bytes(&mut out, head.as_slice());
                    push_stars(&mut out, n - *prefix - *suffix);
                    push_bytes(&mut out, tail.as_slice());
                }
                assert(out@ =~= self.masked(value@));
                out
            },
            ColumnMask::Hash => {
                let text: String = bytes_to_hex(blake3_hash(value).as_slice());
                let bytes: &[u8] = text.as_str().as_bytes();
                let out: Vec<u8> = copy_range(bytes, 0, bytes.len());
                assert(out@ =~= self.masked(value@));
                out
            },
            ColumnMask::Null => Vec::new(),
        }
    }

    /// Masks a text, character by character.
    pub fn mask_string(&self, value: &str) -> (r: String)
        requires
            self.fits(),
        ensures
            r@ == self.masked_text(value@),
    {
        let mut out: String = String::new();
        match self {
            ColumnMask::Full => {
                let n: usize = chars_of(value).len();
                push_star_chars(&mut out, if n == 0 {
                    1
                } else {
                    n
                });
            },
            ColumnMask::Partial { prefix, suffix } => {
                let chars: Vec<char> = chars_of(value);
                let n: usize = chars.len();
                if n <= *prefix + *suffix {
                    push_star_chars(&mut out, n);
                } else {
                    push_chars(&mut out, &chars, 0, *prefix);
                    push_star_chars(&mut out, n - *prefix - *suffix);
                    push_chars(&mut out, &chars, n - *suffix, n);
                }
            },
            ColumnMask::Hash => {
                out = bytes_to_hex(blake3_hash(value.as_bytes()).as_slice());
            },
            ColumnMask::Null => {},
        }
        assert(out@ =~= self.masked_text(value@));
        out
    }
}

fn push_stars(out: &mut Vec<u8>, n: usize)
    ensures
        final(out)@ == old(out)@ + row_of(42u8, n as nat),
{
    let ghost before = out@;
    let mut i: usize = 0;
    assert(out@ =~= before + row_of(42u8, 0));
    while i < n
        invariant
            i <= n,
            out@ == before + row_of(42u8, i as nat),
        decreases n - i,
    {
        out.push(42u8);
        i = i + 1;
        assert(out@ =~= before + row_of(42u8, i as nat));
    }
}

fn push_star_chars(out: &mut String, n: usize)
    ensures
        final(out)@ == old(out)@ + row_of('*', n as nat),
{
    let ghost before = out@;
    let mut i: usize = 0;
    assert(out@ =~= before + row_of('*', 0));
    while i < n
        invariant
            i <= n,
            out@ == before + row_of('*', i as nat),
        decreases n - i,
    {
        out.push('*');
        i = i + 1;
        assert(out@ =~= before + row_of('*', i as nat));
    }
}

fn push_chars(out: &mut String, chars: &Vec<char>, from: usize, to: usize)
    requires
        from <= to <= chars@.len(),
    ensures
        final(out)@ == old(out)@ + chars@.subrange(from as int, to as int),
{
    let ghost before = out@;
    let mut i: usize = from;
    assert(out@ =~= before + chars@.subrange(from as int, from as int));
    while i < to
        invariant
            from <= i <= to <= chars@.len(),
            out@ == before + chars@.subrange(from as int, i as int),
        decreases to - i,
    {
        out.push(chars[i]);
        i = i + 1;
        assert(out@ =~= before + chars@.subrange(from as int, i as int));
    }
}

/// A mask for a column.
#[derive(Clone, Debug)]
pub struct MaskingRule {
    pub column_name: String,
    pub mask: ColumnMask,
    /// The roles that see the mask; with none listed, all do.
    pub roles: Vec<String>,
}

impl MaskingRule {
    /// Whether the rule holds for a role.
    pub open spec fn covers(self, role: Seq<char>) -> bool {
        self.roles@.len() == 0 || texts(self.roles@).contains(role)
    }

    /// A rule for all roles.
    pub fn new(column: &str, mask: ColumnMask) -> (res: Self)
        ensures
            res.column_name@ == column@,
            res.mask == mask,
            res.roles@.len() == 0,
    {
        MaskingRule { column_name: column.to_owned(), mask, roles: Vec::new() }
    }

    /// The rule for the given roles in place of its own.
    pub fn for_roles(self, roles: &[&str]) -> (res: Self)
        ensures
            res.column_name@ == self.column_name@,
            res.mask == self.mask,
            texts(res.roles@) == roles@.map_values(|r: &str| r@),
    {
        let mut list: Vec<String> = Vec::new();
        let mut i: usize = 0;
        while i < roles.len()
            invariant
                i <= roles@.len(),
                list@.len() == i,
                forall|k: int| 0 <= k < i ==> (#[trigger] list@[k])@ == roles@[k]@,
            decreases roles@.len() - i,
        {
            list.push(roles[i].to_owned());
            i = i + 1;
        }
        assert(texts(list@) =~= roles@.map_values(|r: &str| r@));
        MaskingRule { column_name: self.column_name, mask: self.mask, roles: list }
    }

    /// Whether the rule holds for a role.
    pub fn applies_to(&self, role: &str) -> (r: bool)
        ensures
            r == self.covers(role@),
    {
        if self.roles.len() == 0 {
            return true;
        }
        let mut i: usize = 0;
        while i < self.roles.len()
            invariant
                i <= self.roles@.len(),
                forall|k: int| 0 <= k < i ==> (#[trigger] self.roles@[k])@ != role@,
            decreases self.roles@.len() - i,
        {
            if same_text(self.roles[i].as_str(), role) {
                assert(texts(self.roles@)[i as int] == role@);
                return true;
            }
            i = i + 1;
        }
        false
    }
}

/// Whether a rule decides how a role sees a column.
pub open spec fn decides(rule: MaskingRule, column: Seq<char>, role: Seq<char>) -> bool {
    rule.column_name@ == column && rule.covers(role)
}

/// The mask of the first rule that decides, if one does.
pub open spec fn deciding_mask(
    rules: Seq<MaskingRule>,
    column: Seq<char>,
    role: Seq<char>,
) -> Option<ColumnMask>
    decreases rules.len(),
{
    if rules.len() == 0 {
        None
    } else if decides(rules[0], column, role) {
        Some(rules[0].mask)
    } else {
        deciding_mask(rules.drop_first(), column, role)
    }
}

/// A value as a role sees it: under the first rule that decides, or as it is.
pub open spec fn masked_column(
    rules: Seq<MaskingRule>,
    column: Seq<char>,
    value: Seq<u8>,
    role: Seq<char>,
) -> Seq<u8> {
    match deciding_mask(rules, column, role) {
        Some(mask) => mask.masked(value),
        None => value,
    }
}

/// A text as a role sees it: under the first rule that decides, or as it is.
pub open spec fn masked_text(
    rules: Seq<MaskingRule>,
    column: Seq<char>,
    value: Seq<char>,
    role: Seq<char>,
) -> Seq<char> {
    match deciding_mask(rules, column, role) {
        Some(mask) => mask.masked_text(value),
        None => value,
    }
}

/// A list of rules; the first that decides is followed.
#[derive(Clone, Debug)]
pub struct MaskingPolicy {
    pub rules: Vec<MaskingRule>,
}

impl MaskingPolicy {
    /// Every mask fits.
    pub open spec fn fits(self) -> bool {
        forall|i: int| 0 <= i < self.rules@.len() ==> (#[trigger] self.rules@[i]).mask.fits()
    }

    /// A policy without rules.
    pub fn new() -> (res: Self)
        ensures
            res.rules@.len() == 0,
            res.fits(),
    {
        MaskingPolicy { rules: Vec::new() }
    }

    /// Adds a rule after those that are there.
    pub fn add_rule(&mut self, rule: MaskingRule)
        ensures
            final(self).rules@ == old(self).rules@.push(rule),
            old(self).fits() && rule.mask.fits() ==> final(self).fits(),
    {
        self.rules.push(rule);
    }

    fn find_mask(&self, column: &str, role: &str) -> (r: Option<&ColumnMask>)
        requires
            self.fits(),
        ensures
            match r {
                Some(m) => deciding_mask(self.rules@, column@, role@) == Some(*m) && m.fits(),
                None => deciding_mask(self.rules@, column@, role@) is None,
            },
    {
        let mut i: usize = 0;
        assert(self.rules@.skip(0) =~= self.rules@);
        while i < self.rules.len()
            invariant
                i <= self.rules@.len(),
                self.fits(),
                deciding_mask(self.rules@, column@, role@) == deciding_mask(
                    self.rules@.skip(i as int),
                    column@,
                    role@,
                ),
            decreases self.rules@.len() - i,
        {
            let rule: &MaskingRule = &self.rules[i];
            assert(self.rules@.skip(i as int).drop_first() =~= self.rules@.skip(i + 1));
            if same_text(rule.column_name.as_str(), column) && rule.applies_to(role) {
                return Some(&rule.mask);
            }
            i = i + 1;
        }
        None
    }

    /// A value as a role sees it.
    pub fn mask_column(&self, column: &str, value: &[u8], role: &str) -> (r: Vec<u8>)
        requires
            self.fits(),
        ensures
            r@ == masked_column(self.rules@, column@, value@, role@),
    {
        match self.find_mask(column, role) {
            Some(mask) => mask.mask(value),
            None => {
                let out: Vec<u8> = copy_range(value, 0, value.len());
                assert(out@ =~= value@);
                out
            },
        }
    }

    /// A text as a role sees it.
    pub fn mask_string(&self, column: &str, value: &str, role: &str) -> (r: String)
        requires
            self.fits(),
        ensures
            r@ == masked_text(self.rules@, column@, value@, role@),
    {
        match self.find_mask(column, role) {
            Some(mask) => mask.mask_string(value),
            None => value.to_owned(),
        }
    }
}

impl Default for MaskingPolicy {
    fn default() -> (res: Self)
        ensures
            res.rules@.len() == 0,
            res.fits(),
    {
        MaskingPolicy::new()
    }
}

/// What a mask of asterisks shows of a value is its length and the bytes at its
/// ends that the mask leaves: values that agree there look the same.
pub proof fn law_stars_hide(mask: ColumnMask, a: Seq<u8>, b: Seq<u8>)
    requires
        a.len() == b.len(),
        match mask {
            ColumnMask::Partial { prefix, suffix } => prefix + suffix <= a.len()
                ==> a.take(prefix as int) == b.take(prefix as int) && a.skip(a.len() - suffix)
                == b.skip(b.len() - suffix),
            ColumnMask::Hash => false,
            _ => true,
        },
    ensures
        mask.masked(a) == mask.masked(b),
{
}

/// What a mask of asterisks shows of a text is its length and the characters at
/// its ends that the mask leaves: texts that agree there look the same.
pub proof fn law_stars_hide_text(mask: ColumnMask, a: Seq<char>, b: Seq<char>)
    requires
        a.len() == b.len(),
        match mask {
            ColumnMask::Partial { prefix, suffix } => prefix + suffix <= a.len()
                ==> a.take(prefix as int) == b.take(prefix as int) && a.skip(a.len() - suffix)
                == b.skip(b.len() - suffix),
            ColumnMask::Hash => false,
            _ => true,
        },
    ensures
        mask.masked_text(a) == mask.masked_text(b),
{
}

/// Asterisks keep the length of a value and of a text.
pub proof fn law_stars_keep_length(mask: ColumnMask, value: Seq<u8>, text: Seq<char>)
    requires
        mask is Full && value.len() > 0 && text.len() > 0 || mask is Partial,
    ensures
        mask.masked(value).len() == value.len(),
        mask.masked_text(text).len() == text.len(),
{
}

/// A rule holds for a column no matter which rules follow it.
pub proof fn law_first_rule_decides(
    before: Seq<MaskingRule>,
    rule: MaskingRule,
    after: Seq<MaskingRule>,
    column: Seq<char>,
    role: Seq<char>,
)
    requires
        forall|i: int| 0 <= i < before.len() ==> !decides(#[trigger] before[i], column, role),
        decides(rule, column, role),
    ensures
        forall|value: Seq<u8>| #[trigger]
            masked_column(before.push(rule) + after, column, value, role) == rule.mask.masked(
                value,
            ),
        forall|text: Seq<char>| #[trigger]
            masked_text(before.push(rule) + after, column, text, role) == rule.mask.masked_text(
                text,
            ),
{
    lemma_first_decides(before, rule, after, column, role);
}

proof fn lemma_first_decides(
    before: Seq<MaskingRule>,
    rule: MaskingRule,
    after: Seq<MaskingRule>,
    column: Seq<char>,
    role: Seq<char>,
)
    requires
        forall|i: int| 0 <= i < before.len() ==> !decides(#[trigger] before[i], column, role),
        decides(rule, column, role),
    ensures
        deciding_mask(before.push(rule) + after, column, role) == Some(rule.mask),
    decreases before.len(),
{
    let all = before.push(rule) + after;
    if before.len() > 0 {
        let rest = before.drop_first();
        assert(all[0] == before[0]);
        assert(all.drop_first() =~= rest.push(rule) + after);
        assert forall|i: int| 0 <= i < rest.len() implies !decides(
            #[trigger] rest[i],
            column,
            role,
        ) by {
            assert(rest[i] == before[i + 1]);
        }
        lemma_first_decides(rest, rule, after, column, role);
    } else {
        assert(all[0] == rule);
    }
}

} // verus!
