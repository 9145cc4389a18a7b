use vstd::prelude::*;

verus! {

/// One token inside an unparsed declaration value: either a reference to a
/// custom property, carrying the referenced property's name, or any other
/// token, which the audit ignores.
pub enum ValueToken {
    VarRef(String),
    Other,
}

/// A declaration inside a style rule or keyframe step. Declarations that the
/// parser fully resolved into scalar properties cannot contain custom-property
/// references and are modelled as `Resolved`; declarations kept as raw token
/// sequences carry their tokens.
pub enum Declaration {
    Resolved,
    Unparsed(Vec<ValueToken>),
}

/// The closed rule taxonomy that the walker dispatches over. Selector texts,
/// at-rule conditions and layer names arrive already serialized to canonical
/// CSS text.
pub enum Rule {
    Style { selectors: Vec<String>, declarations: Vec<Declaration> },
    Keyframes { name: String, steps: Vec<Vec<Declaration>> },
    Media { condition: String, rules: Vec<Rule> },
    Supports { condition: String, rules: Vec<Rule> },
    Container { condition: String, rules: Vec<Rule> },
    LayerBlock { name: Option<String>, rules: Vec<Rule> },
    /// A rule kind the audit does not traverse; it is reported through the
    /// carried warning message and skipped.
    Unsupported { message: String },
}

/// An ordered sequence of rules, as parsed from one stylesheet source.
pub struct Stylesheet {
    pub rules: Vec<Rule>,
}

/// True when a custom-property name carries the reserved internal prefix
/// `--__`; such properties are implementation-private and are excluded from
/// the audit entirely.
pub open spec fn is_reserved(name: Seq<char>) -> bool {
    name.len() >= 4 && name[0] == '-' && name[1] == '-' && name[2] == '_' && name[3] == '_'
}

/// The views of a sequence of strings.
pub open spec fn views_of(ss: Seq<String>) -> Seq<Seq<char>> {
    ss.map_values(|s: String| s@)
}

/// The set of members of a sequence of character sequences.
pub open spec fn seq_set(ls: Seq<Seq<char>>) -> Set<Seq<char>> {
    Set::new(|l: Seq<char>| exists|j: int| 0 <= j < ls.len() && ls[j] == l)
}

/// The set of views of a sequence of strings.
pub open spec fn str_set(ss: Seq<String>) -> Set<Seq<char>> {
    seq_set(views_of(ss))
}

/// The non-reserved custom-property names referenced by a token sequence.
pub open spec fn token_names(toks: Seq<ValueToken>) -> Set<Seq<char>> {
    Set::new(
        |n: Seq<char>|
            !is_reserved(n) && exists|i: int|
                0 <= i < toks.len() && (#[trigger] toks[i] matches ValueToken::VarRef(v) && v@
                    == n),
    )
}

/// The non-reserved custom-property names referenced by one declaration.
pub open spec fn decl_names(d: Declaration) -> Set<Seq<char>> {
    match d {
        Declaration::Resolved => Set::empty(),
        Declaration::Unparsed(toks) => token_names(toks@),
    }
}

/// The non-reserved custom-property names referenced anywhere in a
/// declaration block.
pub open spec fn decls_names(ds: Seq<Declaration>) -> Set<Seq<char>> {
    Set::new(
        |n: Seq<char>| exists|i: int| 0 <= i < ds.len() && #[trigger] decl_names(ds[i]).contains(n),
    )
}

/// Scanning a declaration block under a fixed sequence of context labels
/// yields every referenced non-reserved name, each mapped to those labels.
pub open spec fn scan_model(contexts: Seq<Seq<char>>, ds: Seq<Declaration>) -> Map<
    Seq<char>,
    Set<Seq<char>>,
> {
    Map::new(|n: Seq<char>| decls_names(ds).contains(n), |n: Seq<char>| seq_set(contexts))
}

/// Merging two usage mappings keeps every name of either and unites the label
/// sets of names present in both.
pub open spec fn merge_model(
    a: Map<Seq<char>, Set<Seq<char>>>,
    b: Map<Seq<char>, Set<Seq<char>>>,
) -> Map<Seq<char>, Set<Seq<char>>> {
    Map::new(
        |n: Seq<char>| a.dom().contains(n) || b.dom().contains(n),
        |n: Seq<char>|
            if a.dom().contains(n) && b.dom().contains(n) {
                a[n].union(b[n])
            } else if a.dom().contains(n) {
                a[n]
            } else {
                b[n]
            },
    )
}

/// A usage mapping holding one name with the given label set.
pub open spec fn singleton_model(n: Seq<char>, ls: Set<Seq<char>>) -> Map<Seq<char>, Set<Seq<char>>> {
    Map::new(|k: Seq<char>| k == n, |k: Seq<char>| ls)
}

/// The separator placed between a conditional at-rule prefix and the selector
/// of a style rule nested under it.
pub open spec fn nest_sep() -> Seq<char> {
    "\n    "@
}

/// The context label of a selector nested under a conditional/grouping rule.
pub open spec fn nested_label(prefix: Seq<char>, selector: Seq<char>) -> Seq<char> {
    prefix + nest_sep() + selector
}

/// The context labels of a nested style rule's selectors, in order.
pub open spec fn nested_labels(prefix: Seq<char>, selectors: Seq<Seq<char>>) -> Seq<Seq<char>> {
    selectors.map_values(|s: Seq<char>| nested_label(prefix, s))
}

pub open spec fn media_prefix(condition: Seq<char>) -> Seq<char> {
    "@media "@ + condition
}

pub open spec fn supports_prefix(condition: Seq<char>) -> Seq<char> {
    "@supports "@ + condition
}

pub open spec fn container_prefix(condition: Seq<char>) -> Seq<char> {
    "@container "@ + condition
}

pub open spec fn layer_prefix(name: Option<String>) -> Seq<char> {
    match name {
        Option::Some(n) => "@layer "@ + n@,
        Option::None => "@layer"@,
    }
}

pub open spec fn keyframes_label(name: Seq<char>) -> Seq<char> {
    "@keyframes "@ + name
}

/// Usages contributed by the direct children of a conditional/grouping rule:
/// only plain style rules directly nested under it are scanned, each selector
/// prefixed with the rule's serialized at-rule text; deeper nesting is not
/// descended into.
pub open spec fn nested_model(prefix: Seq<char>, rules: Seq<Rule>) -> Map<Seq<char>, Set<Seq<char>>>
    decreases rules.len(),
{
    if rules.len() == 0 {
        Map::empty()
    } else {
        let m = nested_model(prefix, rules.drop_last());
        match rules.last() {
            Rule::Style { selectors, declarations } => merge_model(
                m,
                scan_model(nested_labels(prefix, views_of(selectors@)), declarations@),
            ),
            _ => m,
        }
    }
}

/// Usages contributed by the steps of a keyframes rule, all under the rule's
/// single `@keyframes` label.
pub open spec fn steps_model(label: Seq<char>, steps: Seq<Vec<Declaration>>) -> Map<
    Seq<char>,
    Set<Seq<char>>,
>
    decreases steps.len(),
{
    if steps.len() == 0 {
        Map::empty()
    } else {
        merge_model(steps_model(label, steps.drop_last()), scan_model(seq![label], steps.last()@))
    }
}

/// Usages contributed by one rule.
pub open spec fn rule_model(r: Rule) -> Map<Seq<char>, Set<Seq<char>>> {
    match r {
        Rule::Style { selectors, declarations } => scan_model(views_of(selectors@), declarations@),
        Rule::Keyframes { name, steps } => steps_model(keyframes_label(name@), steps@),
        Rule::Media { condition, rules } => nested_model(media_prefix(condition@), rules@),
        Rule::Supports { condition, rules } => nested_model(supports_prefix(condition@), rules@),
        Rule::Container { condition, rules } => nested_model(container_prefix(condition@), rules@),
        Rule::LayerBlock { name, rules } => nested_model(layer_prefix(name), rules@),
        Rule::Unsupported { .. } => Map::empty(),
    }
}

/// Usages contributed by one stylesheet's rules.
pub open spec fn sheet_model(rules: Seq<Rule>) -> Map<Seq<char>, Set<Seq<char>>>
    decreases rules.len(),
{
    if rules.len() == 0 {
        Map::empty()
    } else {
        merge_model(sheet_model(rules.drop_last()), rule_model(rules.last()))
    }
}

/// Usages contributed by a whole run over a sequence of stylesheets.
pub open spec fn run_model(sheets: Seq<Stylesheet>) -> Map<Seq<char>, Set<Seq<char>>>
    decreases sheets.len(),
{
    if sheets.len() == 0 {
        Map::empty()
    } else {
        merge_model(run_model(sheets.drop_last()), sheet_model(sheets.last().rules@))
    }
}

/// The warning messages one rule emits: unsupported rule kinds report their
/// message, every traversed kind reports nothing.
pub open spec fn rule_warnings(r: Rule) -> Seq<String> {
    match r {
        Rule::Unsupported { message } => seq![message],
        _ => Seq::empty(),
    }
}

/// The warning messages of one stylesheet's rules, in rule order.
pub open spec fn sheet_warnings(rules: Seq<Rule>) -> Seq<String>
    decreases rules.len(),
{
    if rules.len() == 0 {
        Seq::empty()
    } else {
        sheet_warnings(rules.drop_last()) + rule_warnings(rules.last())
    }
}

/// The warning messages of a whole run, in stylesheet order.
pub open spec fn run_warnings(sheets: Seq<Stylesheet>) -> Seq<String>
    decreases sheets.len(),
{
    if sheets.len() == 0 {
        Seq::empty()
    } else {
        run_warnings(sheets.drop_last()) + sheet_warnings(sheets.last().rules@)
    }
}

/// Exec check for the reserved `--__` prefix.
pub fn is_reserved_name(s: &str) -> (r: bool)
    ensures
        r == is_reserved(s@),
{
    if s.unicode_len() < 4 {
        return false;
    }
    s.get_char(0) == '-' && s.get_char(1) == '-' && s.get_char(2) == '_' && s.get_char(3) == '_'
}

} // verus!
