//! The theme choice of the app config: which preset is in force and the
//! light/dark toggle.
use vstd::prelude::*;

verus! {

/// A theme preset of the settings.
#[derive(Clone, Copy, Debug, PartialEq, Eq, Structural)]
pub enum ThemePreset {
    ObsidianDark,
    ObsidianLight,
    AlmanacDark,
    AlmanacLight,
    Blueprint,
    BlueprintLight,
    HighContrast,
    Custom,
    Swiss,
}

/// The theme part of the app config: the chosen preset and the dark-mode flag.
#[derive(Clone, Copy, Debug, PartialEq, Eq, Structural)]
pub struct ThemeChoice {
    pub theme_preset: ThemePreset,
    pub dark_mode: bool,
}

/// The light and dark members of a preset's family, for the families that
/// have both (Obsidian, Almanac, Blueprint).
pub open spec fn family(p: ThemePreset) -> Option<(ThemePreset, ThemePreset)> {
    match p {
        ThemePreset::ObsidianDark | ThemePreset::ObsidianLight => Some(
            (ThemePreset::ObsidianLight, ThemePreset::ObsidianDark),
        ),
        ThemePreset::AlmanacDark | ThemePreset::AlmanacLight => Some(
            (ThemePreset::AlmanacLight, ThemePreset::AlmanacDark),
        ),
        ThemePreset::Blueprint | ThemePreset::BlueprintLight => Some(
            (ThemePreset::BlueprintLight, ThemePreset::Blueprint),
        ),
        _ => None,
    }
}

/// The preset and the dark flag agree: a preset with a light/dark sibling is
/// its dark member exactly when dark mode is on.
pub open spec fn in_sync(c: ThemeChoice) -> bool {
    match family(c.theme_preset) {
        Some((light, dark)) => c.theme_preset == (if c.dark_mode {
            dark
        } else {
            light
        }),
        None => true,
    }
}

/// The config after a light/dark flip: dark mode inverted, a paired preset
/// moved to the family member of the new mode, any other preset kept.
pub open spec fn flipped(c: ThemeChoice) -> ThemeChoice {
    let dark = !c.dark_mode;
    ThemeChoice {
        theme_preset: match family(c.theme_preset) {
            Some((l, d)) => if dark {
                d
            } else {
                l
            },
            None => c.theme_preset,
        },
        dark_mode: dark,
    }
}

/// Resolve the compatibility state used by legacy configs that predate
/// presets: Obsidian Dark with dark mode off means Obsidian Light.
pub fn effective_theme_preset(cfg: &ThemeChoice) -> (r: ThemePreset)
    ensures
        r == (if cfg.theme_preset == ThemePreset::ObsidianDark && !cfg.dark_mode {
            ThemePreset::ObsidianLight
        } else {
            cfg.theme_preset
        }),
{
    if cfg.theme_preset == ThemePreset::ObsidianDark && !cfg.dark_mode {
        ThemePreset::ObsidianLight
    } else {
        cfg.theme_preset
    }
}

/// Flip light↔dark in place, preserving an accessibility/custom preset. Each
/// family with a light/dark sibling pair flips within its own pair; presets
/// with no sibling (High Contrast, Custom, Swiss) are left untouched.
pub fn toggle_light_dark(cfg: &mut ThemeChoice)
    ensures
        *final(cfg) == flipped(*old(cfg)),
{
    cfg.dark_mode = !cfg.dark_mode;
    let dark = cfg.dark_mode;
    cfg.theme_preset = match cfg.theme_preset {
        ThemePreset::ObsidianDark | ThemePreset::ObsidianLight => if dark {
            ThemePreset::ObsidianDark
        } else {
            ThemePreset::ObsidianLight
        },
        ThemePreset::AlmanacDark | ThemePreset::AlmanacLight => if dark {
            ThemePreset::AlmanacDark
        } else {
            ThemePreset::AlmanacLight
        },
        ThemePreset::Blueprint | ThemePreset::BlueprintLight => if dark {
            ThemePreset::Blueprint
        } else {
            ThemePreset::BlueprintLight
        },
        other => other,
    };
}

/// A light/dark flip leaves the preset and the dark flag in sync, whatever
/// they were before; from a config in sync, flipping twice restores it.
pub proof fn law_toggle_keeps_preset_in_sync(c: ThemeChoice)
    ensures
        in_sync(flipped(c)),
        flipped(c).dark_mode != c.dark_mode,
        in_sync(c) ==> flipped(flipped(c)) == c,
{
}

} // verus!
