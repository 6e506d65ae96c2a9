//! The names of CSS properties and the keywords that they take.

use crate::text::same_text;
use vstd::prelude::*;

verus! {

/// The texts of a list of literals.
pub open spec fn literals(v: Seq<&'static str>) -> Seq<Seq<char>> {
    v.map_values(|s: &'static str| s@)
}

/// The CSS properties that are offered, in alphabetical order.
pub open spec fn property_names() -> Seq<Seq<char>> {
    seq![
        "align-content"@, "align-items"@, "align-self"@, "animation"@, "animation-delay"@,
        "animation-direction"@, "animation-duration"@, "animation-fill-mode"@,
        "animation-iteration-count"@, "animation-name"@, "animation-play-state"@,
        "animation-timing-function"@, "aspect-ratio"@, "background"@, "background-attachment"@,
        "background-clip"@, "background-color"@, "background-image"@, "background-position"@,
        "background-repeat"@, "background-size"@, "border"@, "border-bottom"@, "border-color"@,
        "border-left"@, "border-radius"@, "border-right"@, "border-style"@, "border-top"@,
        "border-width"@, "bottom"@, "box-shadow"@, "box-sizing"@, "clear"@, "clip-path"@,
        "color"@, "column-gap"@, "content"@, "cursor"@, "display"@, "filter"@, "flex"@,
        "flex-direction"@, "flex-grow"@, "flex-shrink"@, "flex-wrap"@, "float"@, "font"@,
        "font-family"@, "font-size"@, "font-style"@, "font-variant"@, "font-weight"@, "gap"@,
        "grid"@, "grid-column"@, "grid-row"@, "grid-template"@, "grid-template-areas"@,
        "grid-template-columns"@, "grid-template-rows"@, "height"@, "isolation"@,
        "justify-content"@, "justify-items"@, "justify-self"@, "left"@, "letter-spacing"@,
        "line-height"@, "list-style"@, "margin"@, "margin-bottom"@, "margin-left"@,
        "margin-right"@, "margin-top"@, "max-height"@, "max-width"@, "min-height"@, "min-width"@,
        "mix-blend-mode"@, "object-fit"@, "opacity"@, "order"@, "outline"@, "overflow"@,
        "overflow-x"@, "overflow-y"@, "padding"@, "padding-bottom"@, "padding-left"@,
        "padding-right"@, "padding-top"@, "pointer-events"@, "position"@, "resize"@, "right"@,
        "row-gap"@, "text-align"@, "text-decoration"@, "text-overflow"@, "text-shadow"@,
        "text-transform"@, "top"@, "transform"@, "transition"@, "user-select"@,
        "vertical-align"@, "visibility"@, "white-space"@, "width"@, "word-break"@, "z-index"@,
    ]
}

/// The CSS properties that are offered.
pub fn css_property_completions() -> (r: Vec<&'static str>)
    ensures
        literals(r@) == property_names(),
{
    let r: Vec<&'static str> = vec![
        "align-content", "align-items", "align-self", "animation", "animation-delay",
        "animation-direction", "animation-duration", "animation-fill-mode",
        "animation-iteration-count", "animation-name", "animation-play-state",
        "animation-timing-function", "aspect-ratio", "background", "background-attachment",
        "background-clip", "background-color", "background-image", "background-position",
        "background-repeat", "background-size", "border", "border-bottom", "border-color",
        "border-left", "border-radius", "border-right", "border-style", "border-top",
        "border-width", "bottom", "box-shadow", "box-sizing", "clear", "clip-path", "color",
        "column-gap", "content", "cursor", "display", "filter", "flex", "flex-direction",
        "flex-grow", "flex-shrink", "flex-wrap", "float", "font", "font-family", "font-size",
        "font-style", "font-variant", "font-weight", "gap", "grid", "grid-column", "grid-row",
        "grid-template", "grid-template-areas", "grid-template-columns", "grid-template-rows",
        "height", "isolation", "justify-content", "justify-items", "justify-self", "left",
        "letter-spacing", "line-height", "list-style", "margin", "margin-bottom", "margin-left",
        "margin-right", "margin-top", "max-height", "max-width", "min-height", "min-width",
        "mix-blend-mode", "object-fit", "opacity", "order", "outline", "overflow", "overflow-x",
        "overflow-y", "padding", "padding-bottom", "padding-left", "padding-right",
        "padding-top", "pointer-events", "position", "resize", "right", "row-gap", "text-align",
        "text-decoration", "text-overflow", "text-shadow", "text-transform", "top", "transform",
        "transition", "user-select", "vertical-align", "visibility", "white-space", "width",
        "word-break", "z-index",
    ];
    proof {
        assert(literals(r@) =~= property_names());
    }
    r
}

/// The keywords that a property takes; none for a property that is not known.
pub open spec fn property_keywords(property: Seq<char>) -> Seq<Seq<char>> {
    if property == "display"@ {
        seq![
            "block"@, "inline"@, "inline-block"@, "flex"@, "inline-flex"@, "grid"@,
            "inline-grid"@, "none"@, "contents"@, "flow-root"@, "table"@, "table-cell"@,
        ]
    } else if property == "position"@ {
        seq![
            "static"@, "relative"@, "absolute"@, "fixed"@, "sticky"@,
        ]
    } else if property == "visibility"@ {
        seq![
            "visible"@, "hidden"@, "collapse"@,
        ]
    } else if property == "overflow"@ || property == "overflow-x"@ || property == "overflow-y"@ {
        seq![
            "visible"@, "hidden"@, "scroll"@, "auto"@, "clip"@,
        ]
    } else if property == "box-sizing"@ {
        seq![
            "content-box"@, "border-box"@,
        ]
    } else if property == "float"@ {
        seq![
            "left"@, "right"@, "none"@, "inline-start"@, "inline-end"@,
        ]
    } else if property == "clear"@ {
        seq![
            "left"@, "right"@, "both"@, "none"@,
        ]
    } else if property == "flex-direction"@ {
        seq![
            "row"@, "row-reverse"@, "column"@, "column-reverse"@,
        ]
    } else if property == "flex-wrap"@ {
        seq![
            "nowrap"@, "wrap"@, "wrap-reverse"@,
        ]
    } else if property == "justify-content"@ {
        seq![
            "flex-start"@, "flex-end"@, "center"@, "space-between"@, "space-around"@,
            "space-evenly"@, "start"@, "end"@, "normal"@,
        ]
    } else if property == "align-items"@ {
        seq![
            "stretch"@, "flex-start"@, "flex-end"@, "center"@, "baseline"@, "start"@, "end"@,
            "normal"@,
        ]
    } else if property == "align-self"@ {
        seq![
            "auto"@, "stretch"@, "flex-start"@, "flex-end"@, "center"@, "baseline"@, "start"@,
            "end"@, "normal"@,
        ]
    } else if property == "align-content"@ {
        seq![
            "normal"@, "flex-start"@, "flex-end"@, "center"@, "space-between"@, "space-around"@,
            "space-evenly"@, "stretch"@,
        ]
    } else if property == "text-align"@ {
        seq![
            "left"@, "right"@, "center"@, "justify"@, "start"@, "end"@,
        ]
    } else if property == "text-decoration"@ {
        seq![
            "none"@, "underline"@, "overline"@, "line-through"@,
        ]
    } else if property == "text-transform"@ {
        seq![
            "none"@, "uppercase"@, "lowercase"@, "capitalize"@,
        ]
    } else if property == "white-space"@ {
        seq![
            "normal"@, "nowrap"@, "pre"@, "pre-wrap"@, "pre-line"@, "break-spaces"@,
        ]
    } else if property == "vertical-align"@ {
        seq![
            "baseline"@, "top"@, "middle"@, "bottom"@, "text-top"@, "text-bottom"@, "sub"@,
            "super"@,
        ]
    } else if property == "font-weight"@ {
        seq![
            "normal"@, "bold"@, "lighter"@, "bolder"@, "100"@, "200"@, "300"@, "400"@, "500"@,
            "600"@, "700"@, "800"@, "900"@,
        ]
    } else if property == "font-style"@ {
        seq![
            "normal"@, "italic"@, "oblique"@,
        ]
    } else if property == "cursor"@ {
        seq![
            "auto"@, "default"@, "pointer"@, "move"@, "text"@, "wait"@, "help"@, "not-allowed"@,
            "grab"@, "grabbing"@, "crosshair"@, "zoom-in"@, "zoom-out"@,
        ]
    } else if property == "pointer-events"@ {
        seq![
            "auto"@, "none"@,
        ]
    } else if property == "user-select"@ {
        seq![
            "auto"@, "none"@, "text"@, "all"@,
        ]
    } else if property == "resize"@ {
        seq![
            "none"@, "both"@, "horizontal"@, "vertical"@,
        ]
    } else if property == "object-fit"@ {
        seq![
            "fill"@, "contain"@, "cover"@, "none"@, "scale-down"@,
        ]
    } else if property == "border-style"@ {
        seq![
            "none"@, "solid"@, "dashed"@, "dotted"@, "double"@, "groove"@, "ridge"@, "inset"@,
            "outset"@,
        ]
    } else if property == "mix-blend-mode"@ {
        seq![
            "normal"@, "multiply"@, "screen"@, "overlay"@, "darken"@, "lighten"@, "difference"@,
            "exclusion"@, "hue"@, "saturation"@, "color"@, "luminosity"@,
        ]
    } else if property == "isolation"@ {
        seq![
            "auto"@, "isolate"@,
        ]
    } else if property == "animation-fill-mode"@ {
        seq![
            "none"@, "forwards"@, "backwards"@, "both"@,
        ]
    } else if property == "animation-direction"@ {
        seq![
            "normal"@, "reverse"@, "alternate"@, "alternate-reverse"@,
        ]
    } else if property == "animation-timing-function"@ {
        seq![
            "ease"@, "linear"@, "ease-in"@, "ease-out"@, "ease-in-out"@, "step-start"@,
            "step-end"@,
        ]
    } else if property == "animation-play-state"@ {
        seq![
            "running"@, "paused"@,
        ]
    } else if property == "animation-iteration-count"@ {
        seq![
            "infinite"@,
        ]
    } else {
        seq![]
    }
}

/// The keywords that a property takes.
pub fn css_value_completions(property: &str) -> (r: Vec<&'static str>)
    ensures
        literals(r@) == property_keywords(property@),
{
    let r: Vec<&'static str> =
    if same_text(property, "display") {
        vec![
            "block", "inline", "inline-block", "flex", "inline-flex", "grid", "inline-grid",
            "none", "contents", "flow-root", "table", "table-cell",
        ]
    } else if same_text(property, "position") {
        vec![
            "static", "relative", "absolute", "fixed", "sticky",
        ]
    } else if same_text(property, "visibility") {
        vec![
            "visible", "hidden", "collapse",
        ]
    } else if same_text(property, "overflow") || same_text(property, "overflow-x")
        || same_text(property, "overflow-y") {
        vec![
            "visible", "hidden", "scroll", "auto", "clip",
        ]
    } else if same_text(property, "box-sizing") {
        vec![
            "content-box", "border-box",
        ]
    } else if same_text(property, "float") {
        vec![
            "left", "right", "none", "inline-start", "inline-end",
        ]
    } else if same_text(property, "clear") {
        vec![
            "left", "right", "both", "none",
        ]
    } else if same_text(property, "flex-direction") {
        vec![
            "row", "row-reverse", "column", "column-reverse",
        ]
    } else if same_text(property, "flex-wrap") {
        vec![
            "nowrap", "wrap", "wrap-reverse",
        ]
    } else if same_text(property, "justify-content") {
        vec![
            "flex-start", "flex-end", "center", "space-between", "space-around", "space-evenly",
            "start", "end", "normal",
        ]
    } else if same_text(property, "align-items") {
        vec![
            "stretch", "flex-start", "flex-end", "center", "baseline", "start", "end", "normal",
        ]
    } else if same_text(property, "align-self") {
        vec![
            "auto", "stretch", "flex-start", "flex-end", "center", "baseline", "start", "end",
            "normal",
        ]
    } else if same_text(property, "align-content") {
        vec![
            "normal", "flex-start", "flex-end", "center", "space-between", "space-around",
            "space-evenly", "stretch",
        ]
    } else if same_text(property, "text-align") {
        vec![
            "left", "right", "center", "justify", "start", "end",
        ]
    } else if same_text(property, "text-decoration") {
        vec![
            "none", "underline", "overline", "line-through",
        ]
    } else if same_text(property, "text-transform") {
        vec![
            "none", "uppercase", "lowercase", "capitalize",
        ]
    } else if same_text(property, "white-space") {
        vec![
            "normal", "nowrap", "pre", "pre-wrap", "pre-line", "break-spaces",
        ]
    } else if same_text(property, "vertical-align") {
        vec![
            "baseline", "top", "middle", "bottom", "text-top", "text-bottom", "sub", "super",
        ]
    } else if same_text(property, "font-weight") {
        vec![
            "normal", "bold", "lighter", "bolder", "100", "200", "300", "400", "500", "600",
            "700", "800", "900",
        ]
    } else if same_text(property, "font-style") {
        vec![
            "normal", "italic", "oblique",
        ]
    } else if same_text(property, "cursor") {
        vec![
            "auto", "default", "pointer", "move", "text", "wait", "help", "not-allowed", "grab",
            "grabbing", "crosshair", "zoom-in", "zoom-out",
        ]
    } else if same_text(property, "pointer-events") {
        vec![
            "auto", "none",
        ]
    } else if same_text(property, "user-select") {
        vec![
            "auto", "none", "text", "all",
        ]
    } else if same_text(property, "resize") {
        vec![
            "none", "both", "horizontal", "vertical",
        ]
    } else if same_text(property, "object-fit") {
        vec![
            "fill", "contain", "cover", "none", "scale-down",
        ]
    } else if same_text(property, "border-style") {
        vec![
            "none", "solid", "dashed", "dotted", "double", "groove", "ridge", "inset", "outset",
        ]
    } else if same_text(property, "mix-blend-mode") {
        vec![
            "normal", "multiply", "screen", "overlay", "darken", "lighten", "difference",
            "exclusion", "hue", "saturation", "color", "luminosity",
        ]
    } else if same_text(property, "isolation") {
        vec![
            "auto", "isolate",
        ]
    } else if same_text(property, "animation-fill-mode") {
        vec![
            "none", "forwards", "backwards", "both",
        ]
    } else if same_text(property, "animation-direction") {
        vec![
            "normal", "reverse", "alternate", "alternate-reverse",
        ]
    } else if same_text(property, "animation-timing-function") {
        vec![
            "ease", "linear", "ease-in", "ease-out", "ease-in-out", "step-start", "step-end",
        ]
    } else if same_text(property, "animation-play-state") {
        vec![
            "running", "paused",
        ]
    } else if same_text(property, "animation-iteration-count") {
        vec![
            "infinite",
        ]
    } else {
        Vec::new()
    };
    proof {
        assert(literals(r@) =~= property_keywords(property@));
    }
    r
}

} // verus!
