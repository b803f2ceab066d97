//! Accessibility helpers shared by the UI: icon-button descriptions and the
//! letter-spaced section captions.
use vstd::prelude::*;
use crate::text::{chars_of, push_char, to_uppercase, uppercase};

verus! {

/// An icon-only button described for assistive technology: glyph, human
/// label, optional shortcut hint, selected/enabled state and, when disabled,
/// the reason why.
#[derive(Clone, Copy)]
pub struct IconButtonSpec<'a> {
    pub glyph: &'a str,
    pub label: &'a str,
    pub shortcut: Option<&'a str>,
    pub selected: bool,
    pub enabled: bool,
    pub disabled_reason: Option<&'a str>,
}

impl<'a> IconButtonSpec<'a> {
    /// An enabled, unselected button with no shortcut.
    pub fn new(glyph: &'a str, label: &'a str) -> (r: Self)
        ensures
            r.glyph == glyph,
            r.label == label,
            r.shortcut is None,
            !r.selected,
            r.enabled,
            r.disabled_reason is None,
    {
        IconButtonSpec {
            glyph,
            label,
            shortcut: None,
            selected: false,
            enabled: true,
            disabled_reason: None,
        }
    }

    /// The same button with a shortcut hint.
    pub fn shortcut(self, shortcut: &'a str) -> (r: Self)
        ensures
            r == (IconButtonSpec { shortcut: Some(shortcut), ..self }),
    {
        let mut s = self;
        s.shortcut = Some(shortcut);
        s
    }

    /// The same button, selected or not.
    pub fn selected(self, selected: bool) -> (r: Self)
        ensures
            r == (IconButtonSpec { selected, ..self }),
    {
        let mut s = self;
        s.selected = selected;
        s
    }

    /// The same button, enabled or disabled for `disabled_reason` (kept only
    /// when disabled).
    pub fn enabled(self, enabled: bool, disabled_reason: &'a str) -> (r: Self)
        ensures
            r == (IconButtonSpec {
                enabled,
                disabled_reason: if enabled {
                    None
                } else {
                    Some(disabled_reason)
                },
                ..self
            }),
    {
        let mut s = self;
        s.enabled = enabled;
        s.disabled_reason = if enabled {
            None
        } else {
            Some(disabled_reason)
        };
        s
    }

    /// The tooltip / accessible name: `label — reason` when disabled,
    /// `label (shortcut)` with a shortcut, else the label.
    pub fn tooltip_text(self) -> (r: String)
        ensures
            r@ == (match self.disabled_reason {
                Some(reason) => self.label@ + " — "@ + reason@,
                None => match self.shortcut {
                    Some(sc) => self.label@ + " ("@ + sc@ + ")"@,
                    None => self.label@,
                },
            }),
    {
        let mut r = String::from_str(self.label);
        if let Some(reason) = self.disabled_reason {
            r.append(" — ");
            r.append(reason);
        } else if let Some(sc) = self.shortcut {
            r.append(" (");
            r.append(sc);
            r.append(")");
        }
        r
    }
}

/// Thin space (U+2009), the letter-spacing of section captions.
pub open spec fn thin_space() -> char {
    '\u{2009}'
}

/// `s` with `sep` between each two consecutive characters.
pub open spec fn interleaved(s: Seq<char>, sep: char) -> Seq<char>
    decreases s.len(),
{
    if s.len() == 0 {
        Seq::empty()
    } else if s.len() == 1 {
        s
    } else {
        interleaved(s.drop_last(), sep).push(sep).push(s.last())
    }
}

/// Uppercase a label and intersperse thin spaces to fake letter-spacing for the
/// terminal section dividers.
pub fn spaced_caps(label: &str) -> (r: String)
    ensures
        r@ == interleaved(uppercase(label@), thin_space()),
{
    let upper = to_uppercase(label);
    let cs = chars_of(upper.as_str());
    let mut out = String::new();
    let mut i: usize = 0;
    while i < cs.len()
        invariant
            i <= cs@.len(),
            out@ == interleaved(cs@.take(i as int), thin_space()),
        decreases cs@.len() - i,
    {
        assert(cs@.take(i + 1).drop_last() =~= cs@.take(i as int));
        if i > 0 {
            push_char(&mut out, '\u{2009}');
        }
        push_char(&mut out, cs[i]);
        i += 1;
        proof {
            if i == 1 {
                assert(cs@.take(1) =~= seq![cs@[0]]);
                assert(cs@.take(0) =~= Seq::<char>::empty());
                assert(out@ =~= interleaved(cs@.take(i as int), thin_space()));
            }
        }
    }
    assert(cs@.take(i as int) =~= cs@);
    out
}

/// A letter-spaced caption of `n > 0` characters has `2n - 1` characters:
/// the label's characters at the even positions, in order, and the
/// separator at every odd position.
pub proof fn law_interleaved(s: Seq<char>, sep: char)
    ensures
        s.len() > 0 ==> interleaved(s, sep).len() == 2 * s.len() - 1,
        s.len() == 0 ==> interleaved(s, sep).len() == 0,
        forall|k: int| 0 <= k < s.len() ==> #[trigger] interleaved(s, sep)[2 * k] == s[k],
        forall|k: int| 0 <= k < s.len() - 1 ==> #[trigger] interleaved(s, sep)[2 * k + 1] == sep,
    decreases s.len(),
{
    if s.len() > 1 {
        let p = s.drop_last();
        law_interleaved(p, sep);
        assert forall|k: int| 0 <= k < s.len() implies #[trigger] interleaved(s, sep)[2 * k] == s[k] by {
            if k < p.len() {
                assert(interleaved(p, sep)[2 * k] == p[k]);
            }
        }
        assert forall|k: int| 0 <= k < s.len() - 1 implies #[trigger] interleaved(s, sep)[2 * k + 1]
            == sep by {
            if k < p.len() - 1 {
                assert(interleaved(p, sep)[2 * k + 1] == sep);
            }
        }
    }
}

} // verus!
