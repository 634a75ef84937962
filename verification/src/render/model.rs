//! Fitting a model from elsewhere to the body axes.
//!
//! Models disagree on which axis is forward, which is up and how large a unit
//! is. The body axes are forward, right and down; hardly any tool has an axis
//! that points down, which is where mistakes are made.
use crate::binary32::Binary32;
use crate::binary64::Binary64;
use crate::vector::Vec3;
use vstd::prelude::*;

verus! {

/// An axis of the model.
#[derive(Clone, Copy, PartialEq, Eq, Debug, Structural)]
pub enum ModelAxis {
    PositiveX,
    NegativeX,
    PositiveY,
    NegativeY,
    PositiveZ,
    NegativeZ,
}

/// A direction along whole units.
#[derive(Clone, Copy, PartialEq, Eq, Debug, Structural)]
pub struct Direction {
    pub x: i8,
    pub y: i8,
    pub z: i8,
}

/// The product of two numbers that are minus one, zero or one.
pub open spec fn product(a: int, b: int) -> int {
    if a == 0 || b == 0 {
        0
    } else if a == b {
        1
    } else {
        -1
    }
}

/// The product of two numbers that are minus one, zero or one.
fn times(a: i8, b: i8) -> (r: i8)
    requires
        -1 <= a <= 1,
        -1 <= b <= 1,
    ensures
        r == product(a as int, b as int),
        r == a * b,
{
    assert(product(a as int, b as int) == a * b) by (nonlinear_arith)
        requires
            -1 <= a <= 1,
            -1 <= b <= 1,
    ;
    a * b
}

impl Direction {
    pub open spec fn dot_spec(self, other: Direction) -> int {
        product(self.x as int, other.x as int) + product(self.y as int, other.y as int) + product(
            self.z as int,
            other.z as int,
        )
    }

    pub open spec fn spec_cross(self, other: Direction) -> Direction {
        Direction {
            x: (product(self.y as int, other.z as int) - product(self.z as int, other.y as int))
                as i8,
            y: (product(self.z as int, other.x as int) - product(self.x as int, other.z as int))
                as i8,
            z: (product(self.x as int, other.y as int) - product(self.y as int, other.x as int))
                as i8,
        }
    }

    /// What lies at right angles to both.
    pub fn cross(self, other: Direction) -> (r: Direction)
        requires
            self.of_units(),
            other.of_units(),
        ensures
            r == self.spec_cross(other),
    {
        Direction {
            x: times(self.y, other.z) - times(self.z, other.y),
            y: times(self.z, other.x) - times(self.x, other.z),
            z: times(self.x, other.y) - times(self.y, other.x),
        }
    }

    /// Each part is minus one, zero or one.
    pub open spec fn of_units(self) -> bool {
        &&& -1 <= self.x <= 1
        &&& -1 <= self.y <= 1
        &&& -1 <= self.z <= 1
    }
}

/// The characters that Unicode calls white space.
pub open spec fn white_space(c: char) -> bool {
    let code = c as int;
    ||| 0x9 <= code <= 0xd
    ||| code == 0x20
    ||| code == 0x85
    ||| code == 0xa0
    ||| code == 0x1680
    ||| 0x2000 <= code <= 0x200a
    ||| code == 0x2028
    ||| code == 0x2029
    ||| code == 0x202f
    ||| code == 0x205f
    ||| code == 0x3000
}

/// The text with the white space around it taken off.
pub open spec fn trimmed(text: Seq<char>) -> Seq<char>
    decreases text.len(),
{
    if text.len() > 0 && white_space(text[0]) {
        trimmed(text.drop_first())
    } else if text.len() > 0 && white_space(text.last()) {
        trimmed(text.drop_last())
    } else {
        text
    }
}

/// Trimming leaves no white space at either end, and done again leaves all.
pub proof fn trimming_leaves_no_white_space_at_the_ends(text: Seq<char>)
    ensures
        trimmed(text).len() > 0 ==> !white_space(trimmed(text)[0]) && !white_space(
            trimmed(text).last(),
        ),
        trimmed(trimmed(text)) == trimmed(text),
    decreases text.len(),
{
    if text.len() > 0 && white_space(text[0]) {
        trimming_leaves_no_white_space_at_the_ends(text.drop_first());
    } else if text.len() > 0 && white_space(text.last()) {
        trimming_leaves_no_white_space_at_the_ends(text.drop_last());
    }
}

/// The name in lower case.
pub uninterp spec fn lowercased(text: Seq<char>) -> Seq<char>;

/// `str::trim`: the text without the white space at its ends, white space being
/// what has Unicode's property of that name.
#[verifier::external_body]
fn trim(text: &str) -> (r: String)
    ensures
        r@ == trimmed(text@),
{
    text.trim().to_owned()
}

/// `str::to_lowercase`: the text in lower case. The mapping is Unicode's and is
/// only named here.
#[verifier::external_body]
fn to_lowercase(text: &String) -> (r: String)
    ensures
        r@ == lowercased(text@),
{
    text.to_lowercase()
}

impl ModelAxis {
    pub open spec fn spec_direction(self) -> Direction {
        match self {
            ModelAxis::PositiveX => Direction { x: 1, y: 0, z: 0 },
            ModelAxis::NegativeX => Direction { x: (-1) as i8, y: 0, z: 0 },
            ModelAxis::PositiveY => Direction { x: 0, y: 1, z: 0 },
            ModelAxis::NegativeY => Direction { x: 0, y: (-1) as i8, z: 0 },
            ModelAxis::PositiveZ => Direction { x: 0, y: 0, z: 1 },
            ModelAxis::NegativeZ => Direction { x: 0, y: 0, z: (-1) as i8 },
        }
    }

    /// The axis as whole units.
    pub fn direction(self) -> (r: Direction)
        ensures
            r == self.spec_direction(),
    {
        match self {
            ModelAxis::PositiveX => Direction { x: 1, y: 0, z: 0 },
            ModelAxis::NegativeX => Direction { x: -1, y: 0, z: 0 },
            ModelAxis::PositiveY => Direction { x: 0, y: 1, z: 0 },
            ModelAxis::NegativeY => Direction { x: 0, y: -1, z: 0 },
            ModelAxis::PositiveZ => Direction { x: 0, y: 0, z: 1 },
            ModelAxis::NegativeZ => Direction { x: 0, y: 0, z: -1 },
        }
    }

    pub open spec fn spec_to_vec3(self) -> Vec3 {
        let zero = Binary32::of(0);
        let one = Binary32::of(1);
        match self {
            ModelAxis::PositiveX => Vec3 { x: one, y: zero, z: zero },
            ModelAxis::NegativeX => Vec3 { x: one.negate(), y: zero, z: zero },
            ModelAxis::PositiveY => Vec3 { x: zero, y: one, z: zero },
            ModelAxis::NegativeY => Vec3 { x: zero, y: one.negate(), z: zero },
            ModelAxis::PositiveZ => Vec3 { x: zero, y: zero, z: one },
            ModelAxis::NegativeZ => Vec3 { x: zero, y: zero, z: one.negate() },
        }
    }

    /// The axis as a vector of length one.
    #[verifier::when_used_as_spec(spec_to_vec3)]
    pub fn to_vec3(self) -> (r: Vec3)
        ensures
            r == self.to_vec3(),
    {
        let zero = Binary32::of(0);
        let one = Binary32::of(1);
        match self {
            ModelAxis::PositiveX => Vec3 { x: one, y: zero, z: zero },
            ModelAxis::NegativeX => Vec3 { x: one.negate(), y: zero, z: zero },
            ModelAxis::PositiveY => Vec3 { x: zero, y: one, z: zero },
            ModelAxis::NegativeY => Vec3 { x: zero, y: one.negate(), z: zero },
            ModelAxis::PositiveZ => Vec3 { x: zero, y: zero, z: one },
            ModelAxis::NegativeZ => Vec3 { x: zero, y: zero, z: one.negate() },
        }
    }

    /// Both lie along one line.
    pub open spec fn parallel(self, other: ModelAxis) -> bool {
        match self {
            ModelAxis::PositiveX | ModelAxis::NegativeX => other is PositiveX || other is NegativeX,
            ModelAxis::PositiveY | ModelAxis::NegativeY => other is PositiveY || other is NegativeY,
            ModelAxis::PositiveZ | ModelAxis::NegativeZ => other is PositiveZ || other is NegativeZ,
        }
    }

    /// The axis that a trimmed lower-case name stands for.
    pub open spec fn named(name: Seq<char>) -> Option<ModelAxis> {
        if name == "+x"@ || name == "x"@ {
            Some(ModelAxis::PositiveX)
        } else if name == "-x"@ {
            Some(ModelAxis::NegativeX)
        } else if name == "+y"@ || name == "y"@ {
            Some(ModelAxis::PositiveY)
        } else if name == "-y"@ {
            Some(ModelAxis::NegativeY)
        } else if name == "+z"@ || name == "z"@ {
            Some(ModelAxis::PositiveZ)
        } else if name == "-z"@ {
            Some(ModelAxis::NegativeZ)
        } else {
            None
        }
    }

    /// The axis that a trimmed lower-case name stands for, or that name itself.
    pub fn from_name(name: String) -> (r: Result<ModelAxis, ModelFitError>)
        ensures
            match ModelAxis::named(name@) {
                Some(axis) => r == Ok::<ModelAxis, ModelFitError>(axis),
                None => r matches Err(ModelFitError::UnknownAxis(text)) && text@ == name@,
            },
    {
        if name == "+x".to_owned() || name == "x".to_owned() {
            Ok(ModelAxis::PositiveX)
        } else if name == "-x".to_owned() {
            Ok(ModelAxis::NegativeX)
        } else if name == "+y".to_owned() || name == "y".to_owned() {
            Ok(ModelAxis::PositiveY)
        } else if name == "-y".to_owned() {
            Ok(ModelAxis::NegativeY)
        } else if name == "+z".to_owned() || name == "z".to_owned() {
            Ok(ModelAxis::PositiveZ)
        } else if name == "-z".to_owned() {
            Ok(ModelAxis::NegativeZ)
        } else {
            Err(ModelFitError::UnknownAxis(name))
        }
    }

    /// The axis that a text stands for, white space and case aside.
    pub fn parse(text: &str) -> (r: Result<ModelAxis, ModelFitError>)
        ensures
            match ModelAxis::named(lowercased(trimmed(text@))) {
                Some(axis) => r == Ok::<ModelAxis, ModelFitError>(axis),
                None => r matches Err(ModelFitError::UnknownAxis(name)) && name@ == lowercased(
                    trimmed(text@),
                ),
            },
    {
        let name = trim(text);
        ModelAxis::from_name(to_lowercase(&name))
    }
}

/// Why a model cannot be fitted.
#[derive(Clone, PartialEq, Eq, Debug)]
pub enum ModelFitError {
    UnknownAxis(String),
    /// Forward and up lie along one line, so nothing says what is right.
    DegenerateAxes,
}

impl ModelFitError {
    pub open spec fn message_spec(self) -> Seq<char> {
        match self {
            ModelFitError::UnknownAxis(text) => "`"@ + text@
                + "` is not an axis; expected one of +x -x +y -y +z -z"@,
            ModelFitError::DegenerateAxes =>
                "the model's forward and up axes are parallel; they must be perpendicular"@,
        }
    }

    /// What is wrong, and what was expected.
    pub fn message(&self) -> (r: String)
        ensures
            r@ == self.message_spec(),
    {
        match self {
            ModelFitError::UnknownAxis(text) => {
                let mut message: String = "`".to_owned();
                message.append(text.as_str());
                message.append("` is not an axis; expected one of +x -x +y -y +z -z");
                message
            },
            ModelFitError::DegenerateAxes =>
                "the model's forward and up axes are parallel; they must be perpendicular"
                    .to_owned(),
        }
    }
}

/// The rows of the turn from the model's axes to the body axes.
#[derive(Clone, Copy, PartialEq, Eq, Debug, Structural)]
pub struct ModelTurn {
    /// What becomes forward.
    pub forward: Direction,
    /// What becomes right.
    pub right: Direction,
    /// What becomes down.
    pub down: Direction,
}

/// How a model is placed.
#[derive(Clone, Copy, PartialEq, Eq, Debug, Structural)]
pub struct ModelTransform {
    pub translation: Vec3,
    pub rotation: ModelTurn,
    pub scale: Vec3,
}

/// How a model is fitted to the body axes.
#[derive(Clone, Copy, PartialEq, Eq, Debug, Structural)]
pub struct ModelFit {
    /// Where the nose points in the model.
    pub forward: ModelAxis,
    /// Where up is in the model.
    pub up: ModelAxis,
    /// The length that the model is scaled to, in metres.
    pub target_length: Binary64,
}

impl Default for ModelFit {
    /// glTF's habit: up is Y and forward is minus Z.
    fn default() -> (r: ModelFit)
        ensures
            r == (ModelFit {
                forward: ModelAxis::NegativeZ,
                up: ModelAxis::PositiveY,
                target_length: Binary64::ratio(83, 10),
            }),
    {
        ModelFit {
            forward: ModelAxis::NegativeZ,
            up: ModelAxis::PositiveY,
            target_length: Binary64::ratio(83, 10),
        }
    }
}

/// The length of a model along an axis.
pub open spec fn length_along(extents: Vec3, axis: ModelAxis) -> Binary32 {
    Vec3 {
        x: extents.x * axis.to_vec3().x,
        y: extents.y * axis.to_vec3().y,
        z: extents.z * axis.to_vec3().z,
    }.length()
}

impl ModelFit {
    /// A fit, unless forward and up lie along one line.
    pub fn new(forward: ModelAxis, up: ModelAxis, target_length: Binary64) -> (r: Result<
        ModelFit,
        ModelFitError,
    >)
        ensures
            r == if forward.parallel(up) {
                Err(ModelFitError::DegenerateAxes)
            } else {
                Ok(ModelFit { forward, up, target_length })
            },
    {
        let a = forward.direction();
        let b = up.direction();
        let level: i8 = times(a.x, b.x) + times(a.y, b.y) + times(a.z, b.z);
        if level != 0 {
            return Err(ModelFitError::DegenerateAxes);
        }
        Ok(ModelFit { forward, up, target_length })
    }

    /// Forward and up lie at right angles.
    pub open spec fn square(self) -> bool {
        !self.forward.parallel(self.up)
    }

    pub open spec fn spec_rotation(self) -> ModelTurn {
        let f = self.forward.spec_direction();
        let u = self.up.spec_direction();
        ModelTurn {
            forward: f,
            right: f.spec_cross(u),
            down: Direction { x: (-u.x) as i8, y: (-u.y) as i8, z: (-u.z) as i8 },
        }
    }

    /// The turn from the model's axes to the body axes: the model's forward
    /// becomes X and its up becomes minus Z.
    pub fn rotation(&self) -> (r: ModelTurn)
        ensures
            r == self.spec_rotation(),
    {
        let f = self.forward.direction();
        let u = self.up.direction();
        ModelTurn {
            forward: f,
            right: f.cross(u),
            down: Direction { x: -u.x, y: -u.y, z: -u.z },
        }
    }

    pub open spec fn spec_scale_for(self, extents: Vec3) -> Binary32 {
        let along = length_along(extents, self.forward);
        let target = self.target_length.to_binary32();
        if !along.is_finite() || along < Binary32::ratio(1, 1_000_000) || !target.is_finite() {
            Binary32::of(1)
        } else {
            target / along
        }
    }

    /// The scale that brings the model to the length asked for; one where the
    /// model has no length to go by.
    pub fn scale_for(&self, model_extents: Vec3) -> (r: Binary32)
        ensures
            r == self.spec_scale_for(model_extents),
    {
        let axis = self.forward.to_vec3();
        let along = Vec3 {
            x: model_extents.x * axis.x,
            y: model_extents.y * axis.y,
            z: model_extents.z * axis.z,
        }.length();
        let target = self.target_length.to_binary32();
        if !along.is_finite() || along.lt(Binary32::ratio(1, 1_000_000)) || !target.is_finite() {
            return Binary32::of(1);
        }
        target / along
    }

    /// How a model of the given half extents is placed: where it is, turned and
    /// scaled alike along all axes.
    pub fn transform_for(&self, half_extents: Vec3) -> (r: ModelTransform)
        ensures
            r.translation == Vec3::zero(),
            r.rotation == self.spec_rotation(),
            r.scale.x == self.spec_scale_for(half_extents.scaled(Binary32::of(2))),
            r.scale.y == r.scale.x,
            r.scale.z == r.scale.x,
    {
        let scale = self.scale_for(half_extents.scaled(Binary32::of(2)));
        ModelTransform {
            translation: Vec3::zero(),
            rotation: self.rotation(),
            scale: Vec3::new(scale, scale, scale),
        }
    }
}

/// A direction of the model as the body axes see it.
pub open spec fn turned(turn: ModelTurn, d: Direction) -> (int, int, int) {
    (turn.forward.dot_spec(d), turn.right.dot_spec(d), turn.down.dot_spec(d))
}

/// Whatever axes the model has, its nose comes to point forward, its up to
/// point up, which is against Z, and its right to the right.
pub proof fn the_model_ends_up_the_right_way_round(fit: ModelFit)
    requires
        fit.square(),
    ensures
        turned(fit.spec_rotation(), fit.forward.spec_direction()) == (1int, 0int, 0int),
        turned(fit.spec_rotation(), fit.up.spec_direction()) == (0int, 0int, -1int),
        turned(fit.spec_rotation(), fit.spec_rotation().right) == (0int, 1int, 0int),
{
}

/// The turn is a turn and no reflection: right and down span forward, in that
/// order, so left stays left.
pub proof fn the_turn_does_not_mirror(fit: ModelFit)
    requires
        fit.square(),
    ensures
        fit.spec_rotation().right.spec_cross(fit.spec_rotation().down)
            == fit.spec_rotation().forward,
        fit.spec_rotation().forward.dot_spec(
            fit.spec_rotation().right.spec_cross(fit.spec_rotation().down),
        ) == 1,
{
}

} // verus!
