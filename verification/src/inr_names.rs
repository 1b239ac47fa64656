//! The names that INR files use for kinds and modes.
//!
//! Each is read from a string. An unknown string stands for the fallback of its
//! kind, so that files of later versions still load.

use vstd::prelude::*;

verus! {

/// Whether two strings are the same.
pub fn same_text(a: &str, b: &str) -> (r: bool)
    ensures
        r == (a@ == b@),
{
    a.to_owned() == b.to_owned()
}

/// Kind of a node.
#[derive(Debug, Clone, Copy, PartialEq, Eq, Structural)]
pub enum InrNodeKind {
    Part,
    Composite,
    Mask,
    MeshGroup,
    SimplePhysics,
    Camera,
    Node,
}

impl Default for InrNodeKind {
    fn default() -> (r: InrNodeKind)
        ensures
            r == InrNodeKind::Node,
    {
        InrNodeKind::Node
    }
}

impl InrNodeKind {
    /// The name in a file.
    pub open spec fn name(self) -> Seq<char> {
        match self {
            InrNodeKind::Part => "part"@,
            InrNodeKind::Composite => "composite"@,
            InrNodeKind::Mask => "mask"@,
            InrNodeKind::MeshGroup => "meshgroup"@,
            InrNodeKind::SimplePhysics => "simplephysics"@,
            InrNodeKind::Camera => "camera"@,
            InrNodeKind::Node => "node"@,
        }
    }

    /// The value that a name stands for.
    pub open spec fn named(s: Seq<char>) -> InrNodeKind {
        if s == "part"@ {
            InrNodeKind::Part
        } else if s == "composite"@ {
            InrNodeKind::Composite
        } else if s == "mask"@ {
            InrNodeKind::Mask
        } else if s == "meshgroup"@ {
            InrNodeKind::MeshGroup
        } else if s == "simplephysics"@ {
            InrNodeKind::SimplePhysics
        } else if s == "camera"@ {
            InrNodeKind::Camera
        } else {
            InrNodeKind::Node
        }
    }

    pub fn as_str(&self) -> (r: &'static str)
        ensures
            r@ == self.name(),
    {
        match self {
            InrNodeKind::Part => "part",
            InrNodeKind::Composite => "composite",
            InrNodeKind::Mask => "mask",
            InrNodeKind::MeshGroup => "meshgroup",
            InrNodeKind::SimplePhysics => "simplephysics",
            InrNodeKind::Camera => "camera",
            InrNodeKind::Node => "node",
        }
    }

    pub fn from_name(s: &str) -> (r: InrNodeKind)
        ensures
            r == InrNodeKind::named(s@),
    {
        if same_text(s, "part") {
            InrNodeKind::Part
        } else if same_text(s, "composite") {
            InrNodeKind::Composite
        } else if same_text(s, "mask") {
            InrNodeKind::Mask
        } else if same_text(s, "meshgroup") {
            InrNodeKind::MeshGroup
        } else if same_text(s, "simplephysics") {
            InrNodeKind::SimplePhysics
        } else if same_text(s, "camera") {
            InrNodeKind::Camera
        } else {
            InrNodeKind::Node
        }
    }

    /// Every value is read back from its own name.
    pub proof fn lemma_named(self)
        ensures
            InrNodeKind::named(self.name()) == self,
    {
        reveal_strlit("part");
        reveal_strlit("composite");
        reveal_strlit("mask");
        reveal_strlit("meshgroup");
        reveal_strlit("simplephysics");
        reveal_strlit("camera");
        reveal_strlit("node");
        assert("part"@.len() == 4 && "part"@[0] == 'p');
        assert("composite"@.len() == 9 && "composite"@[0] == 'c');
        assert("mask"@.len() == 4 && "mask"@[0] == 'm');
        assert("meshgroup"@.len() == 9 && "meshgroup"@[0] == 'm');
        assert("simplephysics"@.len() == 13);
        assert("camera"@.len() == 6);
        assert("node"@.len() == 4 && "node"@[0] == 'n');
    }
}

/// Blend mode of a part or composite.
#[derive(Debug, Clone, Copy, PartialEq, Eq, Structural)]
pub enum InrBlendMode {
    Multiply,
    Screen,
    Overlay,
    Darken,
    Lighten,
    ColorDodge,
    LinearDodge,
    Add,
    ColorBurn,
    HardLight,
    SoftLight,
    Subtract,
    Difference,
    Exclusion,
    Inverse,
    DestinationIn,
    ClipToLower,
    SliceFromLower,
    Normal,
}

impl Default for InrBlendMode {
    fn default() -> (r: InrBlendMode)
        ensures
            r == InrBlendMode::Normal,
    {
        InrBlendMode::Normal
    }
}

impl InrBlendMode {
    /// The name in a file.
    pub open spec fn name(self) -> Seq<char> {
        match self {
            InrBlendMode::Multiply => "multiply"@,
            InrBlendMode::Screen => "screen"@,
            InrBlendMode::Overlay => "overlay"@,
            InrBlendMode::Darken => "darken"@,
            InrBlendMode::Lighten => "lighten"@,
            InrBlendMode::ColorDodge => "color_dodge"@,
            InrBlendMode::LinearDodge => "linear_dodge"@,
            InrBlendMode::Add => "add"@,
            InrBlendMode::ColorBurn => "color_burn"@,
            InrBlendMode::HardLight => "hard_light"@,
            InrBlendMode::SoftLight => "soft_light"@,
            InrBlendMode::Subtract => "subtract"@,
            InrBlendMode::Difference => "difference"@,
            InrBlendMode::Exclusion => "exclusion"@,
            InrBlendMode::Inverse => "inverse"@,
            InrBlendMode::DestinationIn => "destination_in"@,
            InrBlendMode::ClipToLower => "clip_to_lower"@,
            InrBlendMode::SliceFromLower => "slice_from_lower"@,
            InrBlendMode::Normal => "normal"@,
        }
    }

    /// The value that a name stands for.
    pub open spec fn named(s: Seq<char>) -> InrBlendMode {
        if s == "multiply"@ {
            InrBlendMode::Multiply
        } else if s == "screen"@ {
            InrBlendMode::Screen
        } else if s == "overlay"@ {
            InrBlendMode::Overlay
        } else if s == "darken"@ {
            InrBlendMode::Darken
        } else if s == "lighten"@ {
            InrBlendMode::Lighten
        } else if s == "color_dodge"@ {
            InrBlendMode::ColorDodge
        } else if s == "linear_dodge"@ {
            InrBlendMode::LinearDodge
        } else if s == "add"@ {
            InrBlendMode::Add
        } else if s == "color_burn"@ {
            InrBlendMode::ColorBurn
        } else if s == "hard_light"@ {
            InrBlendMode::HardLight
        } else if s == "soft_light"@ {
            InrBlendMode::SoftLight
        } else if s == "subtract"@ {
            InrBlendMode::Subtract
        } else if s == "difference"@ {
            InrBlendMode::Difference
        } else if s == "exclusion"@ {
            InrBlendMode::Exclusion
        } else if s == "inverse"@ {
            InrBlendMode::Inverse
        } else if s == "destination_in"@ {
            InrBlendMode::DestinationIn
        } else if s == "clip_to_lower"@ {
            InrBlendMode::ClipToLower
        } else if s == "slice_from_lower"@ {
            InrBlendMode::SliceFromLower
        } else {
            InrBlendMode::Normal
        }
    }

    pub fn as_str(&self) -> (r: &'static str)
        ensures
            r@ == self.name(),
    {
        match self {
            InrBlendMode::Multiply => "multiply",
            InrBlendMode::Screen => "screen",
            InrBlendMode::Overlay => "overlay",
            InrBlendMode::Darken => "darken",
            InrBlendMode::Lighten => "lighten",
            InrBlendMode::ColorDodge => "color_dodge",
            InrBlendMode::LinearDodge => "linear_dodge",
            InrBlendMode::Add => "add",
            InrBlendMode::ColorBurn => "color_burn",
            InrBlendMode::HardLight => "hard_light",
            InrBlendMode::SoftLight => "soft_light",
            InrBlendMode::Subtract => "subtract",
            InrBlendMode::Difference => "difference",
            InrBlendMode::Exclusion => "exclusion",
            InrBlendMode::Inverse => "inverse",
            InrBlendMode::DestinationIn => "destination_in",
            InrBlendMode::ClipToLower => "clip_to_lower",
            InrBlendMode::SliceFromLower => "slice_from_lower",
            InrBlendMode::Normal => "normal",
        }
    }

    pub fn from_name(s: &str) -> (r: InrBlendMode)
        ensures
            r == InrBlendMode::named(s@),
    {
        if same_text(s, "multiply") {
            InrBlendMode::Multiply
        } else if same_text(s, "screen") {
            InrBlendMode::Screen
        } else if same_text(s, "overlay") {
            InrBlendMode::Overlay
        } else if same_text(s, "darken") {
            InrBlendMode::Darken
        } else if same_text(s, "lighten") {
            InrBlendMode::Lighten
        } else if same_text(s, "color_dodge") {
            InrBlendMode::ColorDodge
        } else if same_text(s, "linear_dodge") {
            InrBlendMode::LinearDodge
        } else if same_text(s, "add") {
            InrBlendMode::Add
        } else if same_text(s, "color_burn") {
            InrBlendMode::ColorBurn
        } else if same_text(s, "hard_light") {
            InrBlendMode::HardLight
        } else if same_text(s, "soft_light") {
            InrBlendMode::SoftLight
        } else if same_text(s, "subtract") {
            InrBlendMode::Subtract
        } else if same_text(s, "difference") {
            InrBlendMode::Difference
        } else if same_text(s, "exclusion") {
            InrBlendMode::Exclusion
        } else if same_text(s, "inverse") {
            InrBlendMode::Inverse
        } else if same_text(s, "destination_in") {
            InrBlendMode::DestinationIn
        } else if same_text(s, "clip_to_lower") {
            InrBlendMode::ClipToLower
        } else if same_text(s, "slice_from_lower") {
            InrBlendMode::SliceFromLower
        } else {
            InrBlendMode::Normal
        }
    }

    /// Every value is read back from its own name.
    pub proof fn lemma_named(self)
        ensures
            InrBlendMode::named(self.name()) == self,
    {
        reveal_strlit("multiply");
        reveal_strlit("screen");
        reveal_strlit("overlay");
        reveal_strlit("darken");
        reveal_strlit("lighten");
        reveal_strlit("color_dodge");
        reveal_strlit("linear_dodge");
        reveal_strlit("add");
        reveal_strlit("color_burn");
        reveal_strlit("hard_light");
        reveal_strlit("soft_light");
        reveal_strlit("subtract");
        reveal_strlit("difference");
        reveal_strlit("exclusion");
        reveal_strlit("inverse");
        reveal_strlit("destination_in");
        reveal_strlit("clip_to_lower");
        reveal_strlit("slice_from_lower");
        reveal_strlit("normal");
        assert("multiply"@.len() == 8 && "multiply"@[0] == 'm');
        assert("screen"@.len() == 6 && "screen"@[0] == 's');
        assert("overlay"@.len() == 7 && "overlay"@[0] == 'o');
        assert("darken"@.len() == 6 && "darken"@[0] == 'd');
        assert("lighten"@.len() == 7 && "lighten"@[0] == 'l');
        assert("color_dodge"@.len() == 11);
        assert("linear_dodge"@.len() == 12);
        assert("add"@.len() == 3);
        assert("color_burn"@.len() == 10 && "color_burn"@[0] == 'c');
        assert("hard_light"@.len() == 10 && "hard_light"@[0] == 'h');
        assert("soft_light"@.len() == 10 && "soft_light"@[0] == 's');
        assert("subtract"@.len() == 8 && "subtract"@[0] == 's');
        assert("difference"@.len() == 10 && "difference"@[0] == 'd');
        assert("exclusion"@.len() == 9);
        assert("inverse"@.len() == 7 && "inverse"@[0] == 'i');
        assert("destination_in"@.len() == 14);
        assert("clip_to_lower"@.len() == 13);
        assert("slice_from_lower"@.len() == 16);
        assert("normal"@.len() == 6 && "normal"@[0] == 'n');
    }
}

/// How a mask applies.
#[derive(Debug, Clone, Copy, PartialEq, Eq, Structural)]
pub enum InrMaskMode {
    Dodge,
    Mask,
}

impl Default for InrMaskMode {
    fn default() -> (r: InrMaskMode)
        ensures
            r == InrMaskMode::Mask,
    {
        InrMaskMode::Mask
    }
}

impl InrMaskMode {
    /// The name in a file.
    pub open spec fn name(self) -> Seq<char> {
        match self {
            InrMaskMode::Dodge => "dodge"@,
            InrMaskMode::Mask => "mask"@,
        }
    }

    /// The value that a name stands for.
    pub open spec fn named(s: Seq<char>) -> InrMaskMode {
        if s == "dodge"@ {
            InrMaskMode::Dodge
        } else {
            InrMaskMode::Mask
        }
    }

    pub fn as_str(&self) -> (r: &'static str)
        ensures
            r@ == self.name(),
    {
        match self {
            InrMaskMode::Dodge => "dodge",
            InrMaskMode::Mask => "mask",
        }
    }

    pub fn from_name(s: &str) -> (r: InrMaskMode)
        ensures
            r == InrMaskMode::named(s@),
    {
        if same_text(s, "dodge") {
            InrMaskMode::Dodge
        } else {
            InrMaskMode::Mask
        }
    }

    /// Every value is read back from its own name.
    pub proof fn lemma_named(self)
        ensures
            InrMaskMode::named(self.name()) == self,
    {
        reveal_strlit("dodge");
        reveal_strlit("mask");
        assert("dodge"@.len() == 5);
        assert("mask"@.len() == 4);
    }
}

/// Simulation type of a physics node.
#[derive(Debug, Clone, Copy, PartialEq, Eq, Structural)]
pub enum InrPhysicsModel {
    SpringPendulum,
    Pendulum,
}

impl Default for InrPhysicsModel {
    fn default() -> (r: InrPhysicsModel)
        ensures
            r == InrPhysicsModel::Pendulum,
    {
        InrPhysicsModel::Pendulum
    }
}

impl InrPhysicsModel {
    /// The name in a file.
    pub open spec fn name(self) -> Seq<char> {
        match self {
            InrPhysicsModel::SpringPendulum => "spring_pendulum"@,
            InrPhysicsModel::Pendulum => "pendulum"@,
        }
    }

    /// The value that a name stands for.
    pub open spec fn named(s: Seq<char>) -> InrPhysicsModel {
        if s == "spring_pendulum"@ {
            InrPhysicsModel::SpringPendulum
        } else {
            InrPhysicsModel::Pendulum
        }
    }

    pub fn as_str(&self) -> (r: &'static str)
        ensures
            r@ == self.name(),
    {
        match self {
            InrPhysicsModel::SpringPendulum => "spring_pendulum",
            InrPhysicsModel::Pendulum => "pendulum",
        }
    }

    pub fn from_name(s: &str) -> (r: InrPhysicsModel)
        ensures
            r == InrPhysicsModel::named(s@),
    {
        if same_text(s, "spring_pendulum") {
            InrPhysicsModel::SpringPendulum
        } else {
            InrPhysicsModel::Pendulum
        }
    }

    /// Every value is read back from its own name.
    pub proof fn lemma_named(self)
        ensures
            InrPhysicsModel::named(self.name()) == self,
    {
        reveal_strlit("spring_pendulum");
        reveal_strlit("pendulum");
        assert("spring_pendulum"@.len() == 15);
        assert("pendulum"@.len() == 8);
    }
}

/// How the simulated bob maps to a param.
#[derive(Debug, Clone, Copy, PartialEq, Eq, Structural)]
pub enum InrMapMode {
    Xy,
    LengthAngle,
    Yx,
    AngleLength,
}

impl Default for InrMapMode {
    fn default() -> (r: InrMapMode)
        ensures
            r == InrMapMode::AngleLength,
    {
        InrMapMode::AngleLength
    }
}

impl InrMapMode {
    /// The name in a file.
    pub open spec fn name(self) -> Seq<char> {
        match self {
            InrMapMode::Xy => "xy"@,
            InrMapMode::LengthAngle => "length_angle"@,
            InrMapMode::Yx => "yx"@,
            InrMapMode::AngleLength => "angle_length"@,
        }
    }

    /// The value that a name stands for.
    pub open spec fn named(s: Seq<char>) -> InrMapMode {
        if s == "xy"@ {
            InrMapMode::Xy
        } else if s == "length_angle"@ {
            InrMapMode::LengthAngle
        } else if s == "yx"@ {
            InrMapMode::Yx
        } else {
            InrMapMode::AngleLength
        }
    }

    pub fn as_str(&self) -> (r: &'static str)
        ensures
            r@ == self.name(),
    {
        match self {
            InrMapMode::Xy => "xy",
            InrMapMode::LengthAngle => "length_angle",
            InrMapMode::Yx => "yx",
            InrMapMode::AngleLength => "angle_length",
        }
    }

    pub fn from_name(s: &str) -> (r: InrMapMode)
        ensures
            r == InrMapMode::named(s@),
    {
        if same_text(s, "xy") {
            InrMapMode::Xy
        } else if same_text(s, "length_angle") {
            InrMapMode::LengthAngle
        } else if same_text(s, "yx") {
            InrMapMode::Yx
        } else {
            InrMapMode::AngleLength
        }
    }

    /// Every value is read back from its own name.
    pub proof fn lemma_named(self)
        ensures
            InrMapMode::named(self.name()) == self,
    {
        reveal_strlit("xy");
        reveal_strlit("length_angle");
        reveal_strlit("yx");
        reveal_strlit("angle_length");
        assert("xy"@.len() == 2 && "xy"@[0] == 'x');
        assert("length_angle"@.len() == 12 && "length_angle"@[0] == 'l');
        assert("yx"@.len() == 2 && "yx"@[0] == 'y');
        assert("angle_length"@.len() == 12 && "angle_length"@[0] == 'a');
    }
}

/// How a param combines with others.
#[derive(Debug, Clone, Copy, PartialEq, Eq, Structural)]
pub enum InrMergeMode {
    Multiplicative,
    Override,
    Forced,
    Additive,
}

impl Default for InrMergeMode {
    fn default() -> (r: InrMergeMode)
        ensures
            r == InrMergeMode::Additive,
    {
        InrMergeMode::Additive
    }
}

impl InrMergeMode {
    /// The name in a file.
    pub open spec fn name(self) -> Seq<char> {
        match self {
            InrMergeMode::Multiplicative => "multiplicative"@,
            InrMergeMode::Override => "override"@,
            InrMergeMode::Forced => "forced"@,
            InrMergeMode::Additive => "additive"@,
        }
    }

    /// The value that a name stands for.
    pub open spec fn named(s: Seq<char>) -> InrMergeMode {
        if s == "multiplicative"@ {
            InrMergeMode::Multiplicative
        } else if s == "override"@ {
            InrMergeMode::Override
        } else if s == "forced"@ {
            InrMergeMode::Forced
        } else {
            InrMergeMode::Additive
        }
    }

    pub fn as_str(&self) -> (r: &'static str)
        ensures
            r@ == self.name(),
    {
        match self {
            InrMergeMode::Multiplicative => "multiplicative",
            InrMergeMode::Override => "override",
            InrMergeMode::Forced => "forced",
            InrMergeMode::Additive => "additive",
        }
    }

    pub fn from_name(s: &str) -> (r: InrMergeMode)
        ensures
            r == InrMergeMode::named(s@),
    {
        if same_text(s, "multiplicative") {
            InrMergeMode::Multiplicative
        } else if same_text(s, "override") {
            InrMergeMode::Override
        } else if same_text(s, "forced") {
            InrMergeMode::Forced
        } else {
            InrMergeMode::Additive
        }
    }

    /// Every value is read back from its own name.
    pub proof fn lemma_named(self)
        ensures
            InrMergeMode::named(self.name()) == self,
    {
        reveal_strlit("multiplicative");
        reveal_strlit("override");
        reveal_strlit("forced");
        reveal_strlit("additive");
        assert("multiplicative"@.len() == 14);
        assert("override"@.len() == 8 && "override"@[0] == 'o');
        assert("forced"@.len() == 6);
        assert("additive"@.len() == 8 && "additive"@[0] == 'a');
    }
}

/// Interpolation between points.
#[derive(Debug, Clone, Copy, PartialEq, Eq, Structural)]
pub enum InrInterpolation {
    Stepped,
    Nearest,
    Cubic,
    Linear,
}

impl Default for InrInterpolation {
    fn default() -> (r: InrInterpolation)
        ensures
            r == InrInterpolation::Linear,
    {
        InrInterpolation::Linear
    }
}

impl InrInterpolation {
    /// The name in a file.
    pub open spec fn name(self) -> Seq<char> {
        match self {
            InrInterpolation::Stepped => "stepped"@,
            InrInterpolation::Nearest => "nearest"@,
            InrInterpolation::Cubic => "cubic"@,
            InrInterpolation::Linear => "linear"@,
        }
    }

    /// The value that a name stands for.
    pub open spec fn named(s: Seq<char>) -> InrInterpolation {
        if s == "stepped"@ {
            InrInterpolation::Stepped
        } else if s == "nearest"@ {
            InrInterpolation::Nearest
        } else if s == "cubic"@ {
            InrInterpolation::Cubic
        } else {
            InrInterpolation::Linear
        }
    }

    pub fn as_str(&self) -> (r: &'static str)
        ensures
            r@ == self.name(),
    {
        match self {
            InrInterpolation::Stepped => "stepped",
            InrInterpolation::Nearest => "nearest",
            InrInterpolation::Cubic => "cubic",
            InrInterpolation::Linear => "linear",
        }
    }

    pub fn from_name(s: &str) -> (r: InrInterpolation)
        ensures
            r == InrInterpolation::named(s@),
    {
        if same_text(s, "stepped") {
            InrInterpolation::Stepped
        } else if same_text(s, "nearest") {
            InrInterpolation::Nearest
        } else if same_text(s, "cubic") {
            InrInterpolation::Cubic
        } else {
            InrInterpolation::Linear
        }
    }

    /// Every value is read back from its own name.
    pub proof fn lemma_named(self)
        ensures
            InrInterpolation::named(self.name()) == self,
    {
        reveal_strlit("stepped");
        reveal_strlit("nearest");
        reveal_strlit("cubic");
        reveal_strlit("linear");
        assert("stepped"@.len() == 7 && "stepped"@[0] == 's');
        assert("nearest"@.len() == 7 && "nearest"@[0] == 'n');
        assert("cubic"@.len() == 5);
        assert("linear"@.len() == 6);
    }
}

/// Shape of the data of a binding. Unknown kinds must not be read as scalars.
#[derive(Debug, Clone, Copy, PartialEq, Eq, Structural)]
pub enum InrBindingKind {
    Scalar,
    Deform,
    Other,
}

impl Default for InrBindingKind {
    fn default() -> (r: InrBindingKind)
        ensures
            r == InrBindingKind::Scalar,
    {
        InrBindingKind::Scalar
    }
}

impl InrBindingKind {
    /// The name in a file.
    pub open spec fn name(self) -> Seq<char> {
        match self {
            InrBindingKind::Scalar => "scalar"@,
            InrBindingKind::Deform => "deform"@,
            InrBindingKind::Other => "other"@,
        }
    }

    /// The value that a name stands for.
    pub open spec fn named(s: Seq<char>) -> InrBindingKind {
        if s == "scalar"@ {
            InrBindingKind::Scalar
        } else if s == "deform"@ {
            InrBindingKind::Deform
        } else {
            InrBindingKind::Other
        }
    }

    pub fn as_str(&self) -> (r: &'static str)
        ensures
            r@ == self.name(),
    {
        match self {
            InrBindingKind::Scalar => "scalar",
            InrBindingKind::Deform => "deform",
            InrBindingKind::Other => "other",
        }
    }

    pub fn from_name(s: &str) -> (r: InrBindingKind)
        ensures
            r == InrBindingKind::named(s@),
    {
        if same_text(s, "scalar") {
            InrBindingKind::Scalar
        } else if same_text(s, "deform") {
            InrBindingKind::Deform
        } else {
            InrBindingKind::Other
        }
    }

    /// Every value is read back from its own name.
    pub proof fn lemma_named(self)
        ensures
            InrBindingKind::named(self.name()) == self,
    {
        reveal_strlit("scalar");
        reveal_strlit("deform");
        reveal_strlit("other");
        assert("scalar"@.len() == 6 && "scalar"@[0] == 's');
        assert("deform"@.len() == 6 && "deform"@[0] == 'd');
        assert("other"@.len() == 5);
    }
}

/// Node field that a binding drives.
#[derive(Debug, Clone, Copy, PartialEq, Eq, Structural)]
pub enum InrBindingTarget {
    TranslateX,
    TranslateY,
    TranslateZ,
    RotateX,
    RotateY,
    RotateZ,
    ScaleX,
    ScaleY,
    Deform,
    Opacity,
    Other,
}

impl Default for InrBindingTarget {
    fn default() -> (r: InrBindingTarget)
        ensures
            r == InrBindingTarget::Other,
    {
        InrBindingTarget::Other
    }
}

impl InrBindingTarget {
    /// The name in a file.
    pub open spec fn name(self) -> Seq<char> {
        match self {
            InrBindingTarget::TranslateX => "transform.t.x"@,
            InrBindingTarget::TranslateY => "transform.t.y"@,
            InrBindingTarget::TranslateZ => "transform.t.z"@,
            InrBindingTarget::RotateX => "transform.r.x"@,
            InrBindingTarget::RotateY => "transform.r.y"@,
            InrBindingTarget::RotateZ => "transform.r.z"@,
            InrBindingTarget::ScaleX => "transform.s.x"@,
            InrBindingTarget::ScaleY => "transform.s.y"@,
            InrBindingTarget::Deform => "deform"@,
            InrBindingTarget::Opacity => "opacity"@,
            InrBindingTarget::Other => "other"@,
        }
    }

    /// The value that a name stands for.
    pub open spec fn named(s: Seq<char>) -> InrBindingTarget {
        if s == "transform.t.x"@ {
            InrBindingTarget::TranslateX
        } else if s == "transform.t.y"@ {
            InrBindingTarget::TranslateY
        } else if s == "transform.t.z"@ {
            InrBindingTarget::TranslateZ
        } else if s == "transform.r.x"@ {
            InrBindingTarget::RotateX
        } else if s == "transform.r.y"@ {
            InrBindingTarget::RotateY
        } else if s == "transform.r.z"@ {
            InrBindingTarget::RotateZ
        } else if s == "transform.s.x"@ {
            InrBindingTarget::ScaleX
        } else if s == "transform.s.y"@ {
            InrBindingTarget::ScaleY
        } else if s == "deform"@ {
            InrBindingTarget::Deform
        } else if s == "opacity"@ {
            InrBindingTarget::Opacity
        } else {
            InrBindingTarget::Other
        }
    }

    pub fn as_str(&self) -> (r: &'static str)
        ensures
            r@ == self.name(),
    {
        match self {
            InrBindingTarget::TranslateX => "transform.t.x",
            InrBindingTarget::TranslateY => "transform.t.y",
            InrBindingTarget::TranslateZ => "transform.t.z",
            InrBindingTarget::RotateX => "transform.r.x",
            InrBindingTarget::RotateY => "transform.r.y",
            InrBindingTarget::RotateZ => "transform.r.z",
            InrBindingTarget::ScaleX => "transform.s.x",
            InrBindingTarget::ScaleY => "transform.s.y",
            InrBindingTarget::Deform => "deform",
            InrBindingTarget::Opacity => "opacity",
            InrBindingTarget::Other => "other",
        }
    }

    pub fn from_name(s: &str) -> (r: InrBindingTarget)
        ensures
            r == InrBindingTarget::named(s@),
    {
        if same_text(s, "transform.t.x") {
            InrBindingTarget::TranslateX
        } else if same_text(s, "transform.t.y") {
            InrBindingTarget::TranslateY
        } else if same_text(s, "transform.t.z") {
            InrBindingTarget::TranslateZ
        } else if same_text(s, "transform.r.x") {
            InrBindingTarget::RotateX
        } else if same_text(s, "transform.r.y") {
            InrBindingTarget::RotateY
        } else if same_text(s, "transform.r.z") {
            InrBindingTarget::RotateZ
        } else if same_text(s, "transform.s.x") {
            InrBindingTarget::ScaleX
        } else if same_text(s, "transform.s.y") {
            InrBindingTarget::ScaleY
        } else if same_text(s, "deform") {
            InrBindingTarget::Deform
        } else if same_text(s, "opacity") {
            InrBindingTarget::Opacity
        } else {
            InrBindingTarget::Other
        }
    }

    /// Every value is read back from its own name.
    pub proof fn lemma_named(self)
        ensures
            InrBindingTarget::named(self.name()) == self,
    {
        reveal_strlit("transform.t.x");
        reveal_strlit("transform.t.y");
        reveal_strlit("transform.t.z");
        reveal_strlit("transform.r.x");
        reveal_strlit("transform.r.y");
        reveal_strlit("transform.r.z");
        reveal_strlit("transform.s.x");
        reveal_strlit("transform.s.y");
        reveal_strlit("deform");
        reveal_strlit("opacity");
        reveal_strlit("other");
        assert("transform.t.x"@.len() == 13 && "transform.t.x"@[10] == 't' && "transform.t.x"@[12] == 'x');
        assert("transform.t.y"@.len() == 13 && "transform.t.y"@[10] == 't' && "transform.t.y"@[12] == 'y');
        assert("transform.t.z"@.len() == 13 && "transform.t.z"@[10] == 't' && "transform.t.z"@[12] == 'z');
        assert("transform.r.x"@.len() == 13 && "transform.r.x"@[10] == 'r' && "transform.r.x"@[12] == 'x');
        assert("transform.r.y"@.len() == 13 && "transform.r.y"@[10] == 'r' && "transform.r.y"@[12] == 'y');
        assert("transform.r.z"@.len() == 13 && "transform.r.z"@[10] == 'r' && "transform.r.z"@[12] == 'z');
        assert("transform.s.x"@.len() == 13 && "transform.s.x"@[10] == 's' && "transform.s.x"@[12] == 'x');
        assert("transform.s.y"@.len() == 13 && "transform.s.y"@[10] == 's' && "transform.s.y"@[12] == 'y');
        assert("deform"@.len() == 6);
        assert("opacity"@.len() == 7);
        assert("other"@.len() == 5);
    }
}

/// Pixel layout of a texture.
#[derive(Debug, Clone, Copy, PartialEq, Eq, Structural)]
pub enum InrTextureFormat {
    Rgba8,
    Bc7,
    Other,
}

impl Default for InrTextureFormat {
    fn default() -> (r: InrTextureFormat)
        ensures
            r == InrTextureFormat::Rgba8,
    {
        InrTextureFormat::Rgba8
    }
}

impl InrTextureFormat {
    /// The name in a file.
    pub open spec fn name(self) -> Seq<char> {
        match self {
            InrTextureFormat::Rgba8 => "rgba8"@,
            InrTextureFormat::Bc7 => "bc7"@,
            InrTextureFormat::Other => "other"@,
        }
    }

    /// The value that a name stands for.
    pub open spec fn named(s: Seq<char>) -> InrTextureFormat {
        if s == "rgba8"@ {
            InrTextureFormat::Rgba8
        } else if s == "bc7"@ {
            InrTextureFormat::Bc7
        } else {
            InrTextureFormat::Other
        }
    }

    pub fn as_str(&self) -> (r: &'static str)
        ensures
            r@ == self.name(),
    {
        match self {
            InrTextureFormat::Rgba8 => "rgba8",
            InrTextureFormat::Bc7 => "bc7",
            InrTextureFormat::Other => "other",
        }
    }

    pub fn from_name(s: &str) -> (r: InrTextureFormat)
        ensures
            r == InrTextureFormat::named(s@),
    {
        if same_text(s, "rgba8") {
            InrTextureFormat::Rgba8
        } else if same_text(s, "bc7") {
            InrTextureFormat::Bc7
        } else {
            InrTextureFormat::Other
        }
    }

    /// Every value is read back from its own name.
    pub proof fn lemma_named(self)
        ensures
            InrTextureFormat::named(self.name()) == self,
    {
        reveal_strlit("rgba8");
        reveal_strlit("bc7");
        reveal_strlit("other");
        assert("rgba8"@.len() == 5 && "rgba8"@[0] == 'r');
        assert("bc7"@.len() == 3);
        assert("other"@.len() == 5 && "other"@[0] == 'o');
    }
}

/// Encoding of the RGB channels.
#[derive(Debug, Clone, Copy, PartialEq, Eq, Structural)]
pub enum InrColorSpace {
    Linear,
    Srgb,
}

impl Default for InrColorSpace {
    fn default() -> (r: InrColorSpace)
        ensures
            r == InrColorSpace::Srgb,
    {
        InrColorSpace::Srgb
    }
}

impl InrColorSpace {
    /// The name in a file.
    pub open spec fn name(self) -> Seq<char> {
        match self {
            InrColorSpace::Linear => "linear"@,
            InrColorSpace::Srgb => "srgb"@,
        }
    }

    /// The value that a name stands for.
    pub open spec fn named(s: Seq<char>) -> InrColorSpace {
        if s == "linear"@ {
            InrColorSpace::Linear
        } else {
            InrColorSpace::Srgb
        }
    }

    pub fn as_str(&self) -> (r: &'static str)
        ensures
            r@ == self.name(),
    {
        match self {
            InrColorSpace::Linear => "linear",
            InrColorSpace::Srgb => "srgb",
        }
    }

    pub fn from_name(s: &str) -> (r: InrColorSpace)
        ensures
            r == InrColorSpace::named(s@),
    {
        if same_text(s, "linear") {
            InrColorSpace::Linear
        } else {
            InrColorSpace::Srgb
        }
    }

    /// Every value is read back from its own name.
    pub proof fn lemma_named(self)
        ensures
            InrColorSpace::named(self.name()) == self,
    {
        reveal_strlit("linear");
        reveal_strlit("srgb");
        assert("linear"@.len() == 6);
        assert("srgb"@.len() == 4);
    }
}

} // verus!
