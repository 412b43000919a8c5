//! The extension that a destination name is derived from.
//!
//! An extension is either a literal suffix (`bak`: `foo` moves to `foo.bak`,
//! `foo.bak.0`, ...) or a template containing exactly one numeric placeholder
//! (`bak{}.ufo`). The placeholder spellings `{}`, `{+}` and `{++}` differ
//! only in the number displayed for a given candidate index: they start the
//! displayed sequence at 0, 1 and 2 respectively.
//!
//! Names are sequences of bytes; a placeholder is recognized byte for byte,
//! which is safe in UTF-8 text since the ASCII braces never occur inside a
//! multi-byte character.

use vstd::prelude::*;

verus! {

/// ASCII `{`.
pub const LBRACE: u8 = 0x7b;

/// ASCII `}`.
pub const RBRACE: u8 = 0x7d;

/// ASCII `+`.
pub const PLUS: u8 = 0x2b;

/// `{}` starts at position `i` of `s`.
pub open spec fn placeholder0_at(s: Seq<u8>, i: int) -> bool {
    0 <= i && i + 2 <= s.len() && s[i] == LBRACE && s[i + 1] == RBRACE
}

/// `{+}` starts at position `i` of `s`.
pub open spec fn placeholder1_at(s: Seq<u8>, i: int) -> bool {
    0 <= i && i + 3 <= s.len() && s[i] == LBRACE && s[i + 1] == PLUS && s[i + 2] == RBRACE
}

/// `{++}` starts at position `i` of `s`.
pub open spec fn placeholder2_at(s: Seq<u8>, i: int) -> bool {
    0 <= i && i + 4 <= s.len() && s[i] == LBRACE && s[i + 1] == PLUS && s[i + 2] == PLUS && s[i + 3]
        == RBRACE
}

/// Some recognized placeholder starts at position `i` of `s`.
pub open spec fn placeholder_at(s: Seq<u8>, i: int) -> bool {
    placeholder0_at(s, i) || placeholder1_at(s, i) || placeholder2_at(s, i)
}

/// The length in bytes of the placeholder starting at position `i`.
pub open spec fn placeholder_len(s: Seq<u8>, i: int) -> nat {
    if placeholder0_at(s, i) {
        2
    } else if placeholder1_at(s, i) {
        3
    } else {
        4
    }
}

/// The number displayed for candidate index `n >= 1` by the placeholder at
/// position `i`: `{}` shows `n - 1`, `{+}` shows `n`, `{++}` shows `n + 1`,
/// so the displayed sequences start at 0, 1 and 2.
pub open spec fn placeholder_offset(s: Seq<u8>, i: int, n: nat) -> nat
    recommends
        n >= 1,
{
    if placeholder0_at(s, i) {
        (n - 1) as nat
    } else if placeholder1_at(s, i) {
        n
    } else {
        n + 1
    }
}

/// How many positions at or after `i` start a placeholder.
pub open spec fn count_placeholders_from(s: Seq<u8>, i: int) -> nat
    decreases s.len() - i,
{
    if i < 0 || i >= s.len() {
        0
    } else {
        (if placeholder_at(s, i) {
            1nat
        } else {
            0nat
        }) + count_placeholders_from(s, i + 1)
    }
}

/// How many positions of `s` start a placeholder. Distinct placeholder
/// occurrences cannot overlap, since each starts with the only `{` it
/// contains, so this is also the count of non-overlapping occurrences.
pub open spec fn count_placeholders(s: Seq<u8>) -> nat {
    count_placeholders_from(s, 0)
}

/// The first position at or after `i` where a placeholder starts, or the
/// length of `s` if there is none.
pub open spec fn placeholder_pos_from(s: Seq<u8>, i: int) -> int
    decreases s.len() - i,
{
    if i < 0 || i >= s.len() {
        s.len() as int
    } else if placeholder_at(s, i) {
        i
    } else {
        placeholder_pos_from(s, i + 1)
    }
}

/// The first position of `s` where a placeholder starts, or `s.len()`.
pub open spec fn placeholder_pos(s: Seq<u8>) -> int {
    placeholder_pos_from(s, 0)
}

/// The first-position scan finds a placeholder exactly when the count is
/// positive, and nothing before it starts one.
pub proof fn lemma_placeholder_pos_from(s: Seq<u8>, i: int)
    requires
        0 <= i,
    ensures
        count_placeholders_from(s, i) > 0 ==> i <= placeholder_pos_from(s, i) < s.len()
            && placeholder_at(s, placeholder_pos_from(s, i)),
        count_placeholders_from(s, i) == 0 ==> placeholder_pos_from(s, i) == s.len(),
        forall|j: int| i <= j < placeholder_pos_from(s, i) ==> !placeholder_at(s, j),
    decreases s.len() - i,
{
    if i < s.len() && !placeholder_at(s, i) {
        lemma_placeholder_pos_from(s, i + 1);
    }
}

/// The ghost value of an [`Extension`].
pub struct ExtensionModel {
    /// The extension text, without a leading separator.
    pub inner: Seq<u8>,
    /// Whether the extension was constructed as a format string.
    pub format_str: bool,
    /// Minimum digit width for the displayed number, zero-padded.
    pub n_pad: nat,
    /// Whether the bare (index 0) substitution inserts a leading period.
    pub n_prepend_period: bool,
}

impl ExtensionModel {
    /// An extension text is valid when at most one placeholder occurs in it.
    pub open spec fn valid(self) -> bool {
        count_placeholders(self.inner) <= 1
    }

    /// Formatting applies only to extensions constructed as format strings,
    /// and only when the text holds exactly one placeholder; a format string
    /// without a placeholder behaves like a literal.
    pub open spec fn is_template(self) -> bool {
        self.format_str && count_placeholders(self.inner) == 1
    }
}

/// The model of a plain (literal) extension with the given text.
pub open spec fn spec_plain_extension(text: Seq<u8>) -> ExtensionModel {
    ExtensionModel { inner: text, format_str: false, n_pad: 0, n_prepend_period: true }
}

/// The text of the default extension, `bak`.
pub open spec fn spec_default_extension() -> Seq<u8> {
    seq![0x62, 0x61, 0x6b]
}

/// The default extension text, `bak`, as bytes.
pub fn default_extension() -> (r: Vec<u8>)
    ensures
        r@ == spec_default_extension(),
{
    let mut r: Vec<u8> = Vec::new();
    r.push(0x62);
    r.push(0x61);
    r.push(0x6b);
    assert(r@ =~= spec_default_extension());
    r
}

/// An extension, which may or may not be interpreted as a format string.
///
/// Only extensions created via [`Extension::new_format_str`] have formatting
/// applied; [`Extension::new_plain`] takes the text literally even when it
/// contains braces.
pub struct Extension {
    /// Extension text, without a leading separator.
    pub inner: Vec<u8>,
    /// Whether the extension is interpreted as a format string.
    pub format_str: bool,
    /// Zero-pad the displayed number to this many characters.
    pub n_pad: u8,
    /// Whether the bare substitution gets a leading period (default yes).
    pub n_prepend_period: bool,
}

impl View for Extension {
    type V = ExtensionModel;

    open spec fn view(&self) -> ExtensionModel {
        ExtensionModel {
            inner: self.inner@,
            format_str: self.format_str,
            n_pad: self.n_pad as nat,
            n_prepend_period: self.n_prepend_period,
        }
    }
}

/// Reports whether a placeholder starts at position `i`.
pub(crate) fn placeholder_check(s: &Vec<u8>, i: usize) -> (r: bool)
    requires
        i < s@.len(),
    ensures
        r == placeholder_at(s@, i as int),
{
    let n = s.len();
    if s[i] != LBRACE {
        return false;
    }
    if n - i >= 2 && s[i + 1] == RBRACE {
        return true;
    }
    if n - i >= 3 && s[i + 1] == PLUS && s[i + 2] == RBRACE {
        return true;
    }
    if n - i >= 4 && s[i + 1] == PLUS && s[i + 2] == PLUS && s[i + 3] == RBRACE {
        return true;
    }
    false
}

impl Default for Extension {
    /// The default extension: the literal text `bak`, no padding, with a
    /// period before any appended number.
    fn default() -> (r: Self)
        ensures
            r@ == spec_plain_extension(spec_default_extension()),
    {
        Extension {
            inner: default_extension(),
            format_str: false,
            n_pad: 0,
            n_prepend_period: true,
        }
    }
}

impl Extension {
    /// Make a new plain extension; `{}`, `{+}` and `{++}` in the text are
    /// taken literally.
    pub fn new_plain(inner: Vec<u8>) -> (r: Self)
        ensures
            r@ == spec_plain_extension(inner@),
    {
        Extension { inner, format_str: false, n_pad: 0, n_prepend_period: true }
    }

    /// Make a formatted extension. Construction fails when the text holds
    /// more than one placeholder occurrence, since such a template has no
    /// well-defined expansion; no filesystem access ever sees it.
    pub fn new_format_str(inner: Vec<u8>) -> (r: Option<Self>)
        ensures
            match r {
                Some(e) => count_placeholders(inner@) <= 1 && e@ == (ExtensionModel {
                    inner: inner@,
                    format_str: true,
                    n_pad: 0,
                    n_prepend_period: true,
                }),
                None => count_placeholders(inner@) > 1,
            },
    {
        let e = Extension { inner, format_str: true, n_pad: 0, n_prepend_period: true };
        if e.is_valid() {
            Some(e)
        } else {
            None
        }
    }

    /// How many placeholder occurrences the extension text holds.
    pub fn count_formatters(&self) -> (r: usize)
        ensures
            r == count_placeholders(self.inner@),
    {
        let s = &self.inner;
        let mut acc: usize = 0;
        let mut i: usize = 0;
        while i < s.len()
            invariant
                i <= s@.len(),
                acc <= i,
                acc + count_placeholders_from(s@, i as int) == count_placeholders(s@),
            decreases s@.len() - i,
        {
            if placeholder_check(s, i) {
                acc = acc + 1;
            }
            i = i + 1;
        }
        acc
    }

    /// Whether the extension text is valid: at most one placeholder.
    pub fn is_valid(&self) -> (r: bool)
        ensures
            r == self@.valid(),
    {
        self.count_formatters() <= 1
    }

    /// Whether formatting applies: the extension was constructed as a format
    /// string and its text holds exactly one placeholder.
    pub fn is_format_str(&self) -> (r: bool)
        ensures
            r == self@.is_template(),
    {
        self.format_str && self.count_formatters() == 1
    }

    /// Set the zero-padding width for the displayed number (`1` shown with
    /// width 3 becomes `001`).
    pub fn offset_n_pad(self, n_pad: u8) -> (r: Self)
        ensures
            r@ == (ExtensionModel { n_pad: n_pad as nat, ..self@ }),
    {
        Extension { n_pad, ..self }
    }

    /// Don't prepend a period to this extension's bare substitution: with
    /// text ` ({})` the bare candidate gets ` ()`, not ` (.)`.
    pub fn no_prepend_period_to_n(self) -> (r: Self)
        ensures
            r@ == (ExtensionModel { n_prepend_period: false, ..self@ }),
    {
        Extension { n_prepend_period: false, ..self }
    }
}

} // verus!
