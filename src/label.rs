use vstd::prelude::*;

use crate::hex_color::{color_hex, color_of_hex, deserialize, is_color_hex, serialize};

verus! {

/// An RGB colour, one byte per channel.
#[derive(Clone, Copy, Debug, PartialEq, Eq, Structural)]
pub struct Color {
    pub r: u8,
    pub g: u8,
    pub b: u8,
}

/// Why a colour string could not be read.
#[derive(Clone, Debug, PartialEq, Eq)]
pub enum ColorError {
    /// The string is not exactly six hexadecimal digits; it is kept for diagnostics.
    InvalidColorFormat(String),
}

/// A repository label. Names are matched without regard to ASCII case, but
/// kept with the case they were written in.
#[derive(Clone, Debug, PartialEq, Eq)]
pub struct Label {
    pub name: String,
    pub description: String,
    pub color: Color,
}

/// The mathematical value of a label.
pub struct LabelView {
    pub name: Seq<char>,
    pub description: Seq<char>,
    pub color: Color,
}

impl View for Label {
    type V = LabelView;

    open spec fn view(&self) -> LabelView {
        LabelView { name: self.name@, description: self.description@, color: self.color }
    }
}

/// A label as it stands on the wire: the colour is still text.
#[derive(Clone, Debug, PartialEq, Eq)]
pub struct WireLabel {
    pub name: String,
    pub description: String,
    pub color: String,
}

/// Why a label list could not be read.
#[derive(Clone, Debug, PartialEq, Eq)]
pub enum LabelError {
    /// The element at `index` (the first bad one) has a malformed colour.
    InvalidLabelData { index: usize, source: ColorError },
}

/// The body of an update: description and colour are always rewritten,
/// the name only when `new_name` is present.
#[derive(Clone, Debug, PartialEq, Eq)]
pub struct LabelUpdate {
    pub new_name: Option<String>,
    pub description: String,
    pub color: Color,
}

impl LabelUpdate {
    /// An update that also gives the label the name of `label`.
    pub fn with_name(label: &Label) -> (r: LabelUpdate)
        ensures
            r.new_name matches Some(n) && n@ == label.name@,
            r.description@ == label.description@,
            r.color == label.color,
    {
        LabelUpdate {
            new_name: Some(label.name.clone()),
            description: label.description.clone(),
            color: label.color,
        }
    }

    /// An update that keeps the label's name.
    pub fn without_name(label: &Label) -> (r: LabelUpdate)
        ensures
            r.new_name.is_none(),
            r.description@ == label.description@,
            r.color == label.color,
    {
        LabelUpdate { new_name: None, description: label.description.clone(), color: label.color }
    }
}

/// The wire form of a label.
pub open spec fn wire_of(l: LabelView) -> (Seq<char>, Seq<char>, Seq<char>) {
    (l.name, l.description, color_hex(l.color))
}

pub open spec fn wire_view(w: WireLabel) -> (Seq<char>, Seq<char>, Seq<char>) {
    (w.name@, w.description@, w.color@)
}

/// The label a well-formed wire label stands for.
pub open spec fn label_of_wire(w: WireLabel) -> LabelView {
    LabelView { name: w.name@, description: w.description@, color: color_of_hex(w.color@) }
}

impl Label {
    /// A copy of this label.
    pub(crate) fn duplicate(&self) -> (r: Label)
        ensures
            r@ == self@,
    {
        Label { name: self.name.clone(), description: self.description.clone(), color: self.color }
    }

    /// The wire form of this label.
    pub fn to_wire(&self) -> (r: WireLabel)
        ensures
            wire_view(r) == wire_of(self@),
    {
        WireLabel {
            name: self.name.clone(),
            description: self.description.clone(),
            color: serialize(&self.color),
        }
    }

    /// Reads a wire label; fails exactly when its colour is malformed.
    pub fn from_wire(w: &WireLabel) -> (r: Result<Label, ColorError>)
        ensures
            is_color_hex(w.color@) ==> (r matches Ok(l) && l@ == label_of_wire(*w)),
            !is_color_hex(w.color@) ==> (r matches Err(ColorError::InvalidColorFormat(t))
                && t@ == w.color@),
    {
        match deserialize(w.color.as_str()) {
            Ok(color) => Ok(Label { name: w.name.clone(), description: w.description.clone(), color }),
            Err(e) => Err(e),
        }
    }
}

/// Writes every label in its wire form, in order.
pub fn encode_labels(labels: &Vec<Label>) -> (r: Vec<WireLabel>)
    ensures
        r@.len() == labels@.len(),
        forall|i: int| 0 <= i < r@.len() ==> wire_view(#[trigger] r@[i]) == wire_of(labels@[i]@),
{
    let mut out: Vec<WireLabel> = Vec::new();
    let mut i: usize = 0;
    while i < labels.len()
        invariant
            i <= labels@.len(),
            out@.len() == i,
            forall|k: int| 0 <= k < i ==> wire_view(#[trigger] out@[k]) == wire_of(labels@[k]@),
        decreases labels@.len() - i,
    {
        out.push(labels[i].to_wire());
        i = i + 1;
    }
    out
}

/// Reads a whole label list. It fails as a whole, naming the first element
/// whose colour is malformed; otherwise every element is read, in order.
pub fn decode_labels(wire: &Vec<WireLabel>) -> (r: Result<Vec<Label>, LabelError>)
    ensures
        (forall|i: int| 0 <= i < wire@.len() ==> is_color_hex(#[trigger] wire@[i].color@)) ==> (
        r matches Ok(ls) && ls@.len() == wire@.len() && forall|i: int|
            0 <= i < wire@.len() ==> #[trigger] ls@[i]@ == label_of_wire(wire@[i])),
        r matches Err(LabelError::InvalidLabelData { index, source: ColorError::InvalidColorFormat(t) })
            ==> index < wire@.len() && !is_color_hex(wire@[index as int].color@)
                && t@ == wire@[index as int].color@
                && forall|k: int| 0 <= k < index ==> is_color_hex(#[trigger] wire@[k].color@),
        r.is_err() <==> exists|i: int| 0 <= i < wire@.len() && !is_color_hex(#[trigger] wire@[i].color@),
{
    let mut out: Vec<Label> = Vec::new();
    let mut i: usize = 0;
    while i < wire.len()
        invariant
            i <= wire@.len(),
            out@.len() == i,
            forall|k: int| 0 <= k < i ==> is_color_hex(#[trigger] wire@[k].color@),
            forall|k: int| 0 <= k < i ==> #[trigger] out@[k]@ == label_of_wire(wire@[k]),
        decreases wire@.len() - i,
    {
        match Label::from_wire(&wire[i]) {
            Ok(l) => out.push(l),
            Err(e) => {
                return Err(LabelError::InvalidLabelData { index: i, source: e });
            },
        }
        i = i + 1;
    }
    Ok(out)
}

} // verus!
