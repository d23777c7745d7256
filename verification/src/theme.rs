//! Theme selection decisions. Reading theme files, detecting the terminal
//! background and holding the palettes all happen outside the engine; these
//! functions fix which theme a set of flags and lookups selects.

use vstd::prelude::*;

verus! {

#[derive(Clone, Copy, PartialEq, Eq, Structural, Debug)]
pub enum ThemeVariant {
    Dark,
    Light,
}

/// Which theme source serves a request.
#[derive(Clone, Copy, PartialEq, Eq, Structural, Debug)]
pub enum ThemeSource {
    /// The argument named an existing theme file.
    File,
    /// The argument named a built-in theme.
    BuiltIn,
    /// The argument named a file in the custom themes directory.
    CustomDir,
    /// The argument matched nothing: the request fails.
    NotFound,
    /// No argument: the variant's default theme applies.
    DefaultForVariant,
}

/// The variant the flags pick: an explicit dark flag wins, an explicit
/// light flag comes next, otherwise whatever terminal detection reported.
pub fn choose_variant(dark: bool, light: bool, detected_light: bool) -> (r: ThemeVariant)
    ensures
        dark ==> r == ThemeVariant::Dark,
        !dark && light ==> r == ThemeVariant::Light,
        !dark && !light ==> r == (if detected_light {
            ThemeVariant::Light
        } else {
            ThemeVariant::Dark
        }),
{
    if dark {
        ThemeVariant::Dark
    } else if light {
        ThemeVariant::Light
    } else if detected_light {
        ThemeVariant::Light
    } else {
        ThemeVariant::Dark
    }
}

/// Which source serves a theme request: a theme argument is tried first as
/// a theme file path, then as a built-in name, then as a file in the custom
/// themes directory, and fails if all three miss; without an argument the
/// chosen variant's default theme is used.
pub fn resolve_theme_source(
    has_arg: bool,
    arg_is_theme_file: bool,
    arg_is_builtin: bool,
    custom_file_exists: bool,
) -> (r: ThemeSource)
    ensures
        !has_arg ==> r == ThemeSource::DefaultForVariant,
        has_arg && arg_is_theme_file ==> r == ThemeSource::File,
        has_arg && !arg_is_theme_file && arg_is_builtin ==> r == ThemeSource::BuiltIn,
        has_arg && !arg_is_theme_file && !arg_is_builtin && custom_file_exists ==> r
            == ThemeSource::CustomDir,
        has_arg && !arg_is_theme_file && !arg_is_builtin && !custom_file_exists ==> r
            == ThemeSource::NotFound,
{
    if !has_arg {
        ThemeSource::DefaultForVariant
    } else if arg_is_theme_file {
        ThemeSource::File
    } else if arg_is_builtin {
        ThemeSource::BuiltIn
    } else if custom_file_exists {
        ThemeSource::CustomDir
    } else {
        ThemeSource::NotFound
    }
}

} // verus!
