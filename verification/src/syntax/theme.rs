//! The colours of highlighted text, chosen to stand out from the backgrounds of changed lines.
use vstd::prelude::*;

use std::str::FromStr;

use crate::syntax::theme_rules;

use syntect::highlighting::Color;
use syntect::highlighting::ScopeSelectors;
use syntect::highlighting::StyleModifier;
use syntect::highlighting::Theme;
use syntect::highlighting::ThemeItem;
use syntect::highlighting::ThemeSettings;

verus! {

/// The colour of a scope.
pub struct ThemeRule {
    pub scope: &'static str,
    pub red: u8,
    pub green: u8,
    pub blue: u8,
}

impl DeepView for ThemeRule {
    type V = (Seq<char>, u8, u8, u8);

    open spec fn deep_view(&self) -> (Seq<char>, u8, u8, u8) {
        (self.scope@, self.red, self.green, self.blue)
    }
}

/// The number of dots in a text, up to position `i`.
pub open spec fn dots(s: Seq<char>, i: nat) -> nat
    decreases i,
{
    if i == 0 {
        0
    } else {
        dots(s, (i - 1) as nat) + if s[i - 1] == '.' {
            1nat
        } else {
            0
        }
    }
}

/// A scope that a selector can be made of: a single one, of at most eight parts.
pub open spec fn is_scope(s: Seq<char>) -> bool {
    dots(s, s.len()) < 8
}

/// The rules of the library's theme. The first is for text that no other rule is about.
pub open spec fn branchdiff_rules() -> Seq<(Seq<char>, u8, u8, u8)> {
    seq![(Seq::empty(), 200u8, 200u8, 200u8)] + scope_rules()
}

/// The rules for keywords, strings, comments, numbers, types, functions, macros, parameters and
/// punctuation.
pub open spec fn scope_rules() -> Seq<(Seq<char>, u8, u8, u8)> {
    seq![
        ("keyword"@, 180, 140, 200),
        ("storage.type"@, 180, 140, 200),
        ("storage.modifier"@, 180, 140, 200),
        ("string"@, 220, 180, 140),
        ("comment"@, 128, 128, 140),
        ("constant.numeric"@, 140, 200, 220),
        ("constant.language"@, 140, 200, 220),
        ("entity.name.type"@, 140, 200, 180),
        ("entity.name.class"@, 140, 200, 180),
        ("support.type"@, 140, 200, 180),
        ("entity.name.struct"@, 140, 200, 180),
        ("entity.name.enum"@, 140, 200, 180),
        ("entity.name.trait"@, 140, 200, 180),
        ("entity.name.function"@, 220, 200, 140),
        ("support.function"@, 220, 200, 140),
        ("entity.name.method"@, 220, 200, 140),
        ("entity.name.macro"@, 230, 210, 150),
        ("variable.parameter"@, 190, 190, 200),
        ("punctuation"@, 180, 180, 180),
    ]
}

/// `Theme` of syntect with the given foreground and one item for each rule, its scope parsed by
/// `ScopeSelectors::from_str`, which refuses scopes of more than eight parts.
#[verifier::external_body]
fn build_theme(foreground: (u8, u8, u8), rules: &[ThemeRule]) -> (r: Theme)
    requires
        forall|i: int| 0 <= i < rules@.len() ==> is_scope((#[trigger] rules@[i]).scope@),
    ensures
        theme_rules(r) == seq![(Seq::<char>::empty(), foreground.0, foreground.1, foreground.2)]
            + rules.deep_view(),
{
    let color = |r: u8, g: u8, b: u8| Some(Color { r, g, b, a: 255 });
    let item = |rule: &ThemeRule| ThemeItem {
        scope: ScopeSelectors::from_str(rule.scope).unwrap(),
        style: StyleModifier {
            foreground: color(rule.red, rule.green, rule.blue),
            ..Default::default()
        },
    };
    let settings = ThemeSettings {
        foreground: color(foreground.0, foreground.1, foreground.2),
        ..Default::default()
    };
    Theme { settings, scopes: rules.iter().map(item).collect(), ..Default::default() }
}

fn rule(scope: &'static str, red: u8, green: u8, blue: u8) -> (r: ThemeRule)
    ensures
        r.deep_view() == (scope@, red, green, blue),
{
    ThemeRule { scope, red, green, blue }
}

proof fn lemma_short_scopes()
    ensures
        is_scope("keyword"@),
        is_scope("storage.type"@),
        is_scope("storage.modifier"@),
        is_scope("string"@),
        is_scope("comment"@),
        is_scope("constant.numeric"@),
        is_scope("constant.language"@),
        is_scope("entity.name.type"@),
        is_scope("entity.name.class"@),
        is_scope("support.type"@),
{
    reveal_strlit("keyword");
    reveal_strlit("storage.type");
    reveal_strlit("storage.modifier");
    reveal_strlit("string");
    reveal_strlit("comment");
    reveal_strlit("constant.numeric");
    reveal_strlit("constant.language");
    reveal_strlit("entity.name.type");
    reveal_strlit("entity.name.class");
    reveal_strlit("support.type");
    reveal_with_fuel(dots, 18);
}

proof fn lemma_long_scopes()
    ensures
        is_scope("entity.name.struct"@),
        is_scope("entity.name.enum"@),
        is_scope("entity.name.trait"@),
        is_scope("entity.name.function"@),
        is_scope("support.function"@),
        is_scope("entity.name.method"@),
        is_scope("entity.name.macro"@),
        is_scope("variable.parameter"@),
        is_scope("punctuation"@),
{
    reveal_strlit("entity.name.struct");
    reveal_strlit("entity.name.enum");
    reveal_strlit("entity.name.trait");
    reveal_strlit("entity.name.function");
    reveal_strlit("support.function");
    reveal_strlit("entity.name.method");
    reveal_strlit("entity.name.macro");
    reveal_strlit("variable.parameter");
    reveal_strlit("punctuation");
    reveal_with_fuel(dots, 21);
}

/// The library's theme.
pub fn branchdiff_theme() -> (r: Theme)
    ensures
        theme_rules(r) == branchdiff_rules(),
{
    let rules = vec![
        rule("keyword", 180, 140, 200),
        rule("storage.type", 180, 140, 200),
        rule("storage.modifier", 180, 140, 200),
        rule("string", 220, 180, 140),
        rule("comment", 128, 128, 140),
        rule("constant.numeric", 140, 200, 220),
        rule("constant.language", 140, 200, 220),
        rule("entity.name.type", 140, 200, 180),
        rule("entity.name.class", 140, 200, 180),
        rule("support.type", 140, 200, 180),
        rule("entity.name.struct", 140, 200, 180),
        rule("entity.name.enum", 140, 200, 180),
        rule("entity.name.trait", 140, 200, 180),
        rule("entity.name.function", 220, 200, 140),
        rule("support.function", 220, 200, 140),
        rule("entity.name.method", 220, 200, 140),
        rule("entity.name.macro", 230, 210, 150),
        rule("variable.parameter", 190, 190, 200),
        rule("punctuation", 180, 180, 180),
    ];
    let part = rules.as_slice();
    proof {
        assert(part.deep_view() =~= scope_rules());
        lemma_short_scopes();
        lemma_long_scopes();
        assert forall|i: int| 0 <= i < part@.len() implies is_scope(
            (#[trigger] part@[i]).scope@,
        ) by {
            assert(scope_rules()[i] == part@[i].deep_view());
        }
    }
    build_theme((200, 200, 200), part)
}

} // verus!
