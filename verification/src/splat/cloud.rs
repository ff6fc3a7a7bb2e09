//! Splat clouds, attribute by attribute.
//!
//! Each attribute is one array: the sort touches positions only, the composite
//! pass touches the appearance.

use vstd::prelude::*;

verus! {

/// Spherical-harmonics coefficients per splat and color channel.
pub const SH_COEFFS_PER_CHANNEL: usize = 9;

/// Three floats, by their bits.
#[derive(Clone, Copy, Debug, PartialEq, Eq, Structural)]
pub struct Vec3 {
    pub x: u32,
    pub y: u32,
    pub z: u32,
}

/// A quaternion of four floats, by their bits.
#[derive(Clone, Copy, Debug, PartialEq, Eq, Structural)]
pub struct Quat {
    pub x: u32,
    pub y: u32,
    pub z: u32,
    pub w: u32,
}

/// Coefficients of one splat: three channels of nine.
pub type Harmonics = [u32; 27];

/// Model of a cloud.
#[verifier::ext_equal]
pub struct CloudModel {
    pub position: Seq<Vec3>,
    pub scale: Seq<Vec3>,
    pub rotation: Seq<Quat>,
    pub color: Seq<Vec3>,
    pub opacity: Seq<u32>,
    pub sh: Option<Seq<Seq<u32>>>,
}

/// The coefficients behind a list of arrays.
pub open spec fn harmonics(v: Seq<Harmonics>) -> Seq<Seq<u32>> {
    Seq::new(v.len(), |i: int| v[i]@)
}

/// The coefficients behind an optional list of arrays.
pub open spec fn opt_harmonics(o: Option<Vec<Harmonics>>) -> Option<Seq<Seq<u32>>> {
    match o {
        Some(v) => Some(harmonics(v@)),
        None => None,
    }
}

impl CloudModel {
    /// Whether all attributes have one entry per splat.
    pub open spec fn even(self) -> bool {
        let n = self.position.len();
        &&& self.scale.len() == n
        &&& self.rotation.len() == n
        &&& self.color.len() == n
        &&& self.opacity.len() == n
        &&& self.sh matches Some(sh) ==> sh.len() == n
    }
}

/// Why a cloud could not be built.
#[derive(Clone, Copy, Debug, PartialEq, Eq, Structural)]
pub enum CloudError {
    /// Two or more attribute arrays had mismatched lengths.
    AttributeLengthMismatch,
}

impl CloudError {
    /// The text of the error.
    pub open spec fn text(self) -> Seq<char> {
        "splat cloud attribute arrays have mismatched lengths"@
    }

    /// The message that describes the error.
    pub fn message(&self) -> (r: String)
        ensures
            r@ == self.text(),
    {
        "splat cloud attribute arrays have mismatched lengths".to_owned()
    }
}

/// The attributes of a cloud of splats. It does not change once it is built.
#[derive(Debug)]
pub struct SplatCloud {
    position: Vec<Vec3>,
    scale: Vec<Vec3>,
    rotation: Vec<Quat>,
    color: Vec<Vec3>,
    opacity: Vec<u32>,
    sh: Option<Vec<Harmonics>>,
}

impl View for SplatCloud {
    type V = CloudModel;

    closed spec fn view(&self) -> CloudModel {
        CloudModel {
            position: self.position@,
            scale: self.scale@,
            rotation: self.rotation@,
            color: self.color@,
            opacity: self.opacity@,
            sh: opt_harmonics(self.sh),
        }
    }
}

fn copied<T: Copy>(v: &Vec<T>) -> (r: Vec<T>)
    ensures
        r@ == v@,
{
    let mut out: Vec<T> = Vec::new();
    let mut i: usize = 0;
    while i < v.len()
        invariant
            i <= v@.len(),
            out@ == v@.take(i as int),
        decreases v.len() - i,
    {
        out.push(v[i]);
        i += 1;
        assert(out@ =~= v@.take(i as int));
    }
    assert(v@.take(i as int) =~= v@);
    out
}

impl Clone for SplatCloud {
    fn clone(&self) -> (r: SplatCloud)
        ensures
            r@ == self@,
    {
        proof {
            use_type_invariant(self);
        }
        let sh = match &self.sh {
            Some(v) => Some(copied(v)),
            None => None,
        };
        SplatCloud {
            position: copied(&self.position),
            scale: copied(&self.scale),
            rotation: copied(&self.rotation),
            color: copied(&self.color),
            opacity: copied(&self.opacity),
            sh,
        }
    }
}

impl SplatCloud {
    /// All attributes have one entry per splat.
    #[verifier::type_invariant]
    spec fn wf(self) -> bool {
        self@.even()
    }

    /// Builds a cloud from its attributes, which must all have the same length.
    pub fn from_attributes(
        position: Vec<Vec3>,
        scale: Vec<Vec3>,
        rotation: Vec<Quat>,
        color: Vec<Vec3>,
        opacity: Vec<u32>,
        sh: Option<Vec<Harmonics>>,
    ) -> (r: Result<SplatCloud, CloudError>)
        ensures
            ({
                let m = CloudModel {
                    position: position@,
                    scale: scale@,
                    rotation: rotation@,
                    color: color@,
                    opacity: opacity@,
                    sh: opt_harmonics(sh),
                };
                match r {
                    Ok(c) => m.even() && c@ == m,
                    Err(e) => !m.even() && e == CloudError::AttributeLengthMismatch,
                }
            }),
    {
        let count: usize = position.len();
        if scale.len() != count || rotation.len() != count || color.len() != count || opacity.len() != count {
            return Err(CloudError::AttributeLengthMismatch);
        }
        if let Some(sh) = &sh {
            assert(harmonics(sh@).len() == sh@.len());
            if sh.len() != count {
                return Err(CloudError::AttributeLengthMismatch);
            }
        }
        Ok(SplatCloud { position, scale, rotation, color, opacity, sh })
    }

    /// Number of splats in the cloud.
    pub fn len(&self) -> (r: usize)
        ensures
            r == self@.position.len(),
            self@.even(),
    {
        proof {
            use_type_invariant(self);
        }
        self.position.len()
    }

    /// Whether the cloud has no splats.
    pub fn is_empty(&self) -> (r: bool)
        ensures
            r == (self@.position.len() == 0),
    {
        self.position.len() == 0
    }

    /// World-space splat positions.
    pub fn position(&self) -> (r: &[Vec3])
        ensures
            r@ == self@.position,
    {
        self.position.as_slice()
    }

    /// Per-splat ellipsoid scale (log space).
    pub fn scale(&self) -> (r: &[Vec3])
        ensures
            r@ == self@.scale,
    {
        self.scale.as_slice()
    }

    /// Per-splat orientation.
    pub fn rotation(&self) -> (r: &[Quat])
        ensures
            r@ == self@.rotation,
    {
        self.rotation.as_slice()
    }

    /// Per-splat base color.
    pub fn color(&self) -> (r: &[Vec3])
        ensures
            r@ == self@.color,
    {
        self.color.as_slice()
    }

    /// Per-splat alpha.
    pub fn opacity(&self) -> (r: &[u32])
        ensures
            r@ == self@.opacity,
    {
        self.opacity.as_slice()
    }

    /// Per-splat spherical-harmonics coefficients, or `None` for ambient-only
    /// clouds.
    pub fn sh(&self) -> (r: Option<&[Harmonics]>)
        ensures
            match r {
                Some(v) => self@.sh == Some(harmonics(v@)),
                None => self@.sh is None,
            },
    {
        match &self.sh {
            Some(v) => Some(v.as_slice()),
            None => None,
        }
    }
}

/// Builds a [`SplatCloud`] attribute by attribute.
#[derive(Debug)]
pub struct SplatCloudBuilder {
    position: Vec<Vec3>,
    scale: Vec<Vec3>,
    rotation: Vec<Quat>,
    color: Vec<Vec3>,
    opacity: Vec<u32>,
    sh: Option<Vec<Harmonics>>,
}

impl View for SplatCloudBuilder {
    type V = CloudModel;

    closed spec fn view(&self) -> CloudModel {
        CloudModel {
            position: self.position@,
            scale: self.scale@,
            rotation: self.rotation@,
            color: self.color@,
            opacity: self.opacity@,
            sh: opt_harmonics(self.sh),
        }
    }
}

/// A cloud before any attribute is set.
pub open spec fn no_attributes() -> CloudModel {
    CloudModel {
        position: Seq::empty(),
        scale: Seq::empty(),
        rotation: Seq::empty(),
        color: Seq::empty(),
        opacity: Seq::empty(),
        sh: None,
    }
}

impl Default for SplatCloudBuilder {
    /// An empty builder.
    fn default() -> (r: SplatCloudBuilder)
        ensures
            r@ == no_attributes(),
    {
        SplatCloudBuilder::new()
    }
}

impl SplatCloudBuilder {
    /// Construct an empty builder.
    pub fn new() -> (r: SplatCloudBuilder)
        ensures
            r@ == no_attributes(),
    {
        SplatCloudBuilder {
            position: Vec::new(),
            scale: Vec::new(),
            rotation: Vec::new(),
            color: Vec::new(),
            opacity: Vec::new(),
            sh: None,
        }
    }

    /// An empty builder with room for `n` splats.
    pub fn with_capacity(n: usize) -> (r: SplatCloudBuilder)
        ensures
            r@ == no_attributes(),
    {
        SplatCloudBuilder {
            position: Vec::with_capacity(n),
            scale: Vec::with_capacity(n),
            rotation: Vec::with_capacity(n),
            color: Vec::with_capacity(n),
            opacity: Vec::with_capacity(n),
            sh: None,
        }
    }

    /// Replace the positions.
    pub fn positions(self, positions: Vec<Vec3>) -> (r: SplatCloudBuilder)
        ensures
            r@ == (CloudModel { position: positions@, ..self@ }),
    {
        SplatCloudBuilder { position: positions, ..self }
    }

    /// Replace the scales.
    pub fn scales(self, scales: Vec<Vec3>) -> (r: SplatCloudBuilder)
        ensures
            r@ == (CloudModel { scale: scales@, ..self@ }),
    {
        SplatCloudBuilder { scale: scales, ..self }
    }

    /// Replace the rotations.
    pub fn rotations(self, rotations: Vec<Quat>) -> (r: SplatCloudBuilder)
        ensures
            r@ == (CloudModel { rotation: rotations@, ..self@ }),
    {
        SplatCloudBuilder { rotation: rotations, ..self }
    }

    /// Replace the colors.
    pub fn colors(self, colors: Vec<Vec3>) -> (r: SplatCloudBuilder)
        ensures
            r@ == (CloudModel { color: colors@, ..self@ }),
    {
        SplatCloudBuilder { color: colors, ..self }
    }

    /// Replace the opacities.
    pub fn opacities(self, opacities: Vec<u32>) -> (r: SplatCloudBuilder)
        ensures
            r@ == (CloudModel { opacity: opacities@, ..self@ }),
    {
        SplatCloudBuilder { opacity: opacities, ..self }
    }

    /// Attach (or replace) the spherical-harmonics coefficients.
    pub fn spherical_harmonics(self, sh: Vec<Harmonics>) -> (r: SplatCloudBuilder)
        ensures
            r@ == (CloudModel { sh: Some(harmonics(sh@)), ..self@ }),
    {
        SplatCloudBuilder { sh: Some(sh), ..self }
    }

    /// Builds the cloud, if all attributes have the same length.
    pub fn build(self) -> (r: Result<SplatCloud, CloudError>)
        ensures
            match r {
                Ok(c) => self@.even() && c@ == self@,
                Err(e) => !self@.even() && e == CloudError::AttributeLengthMismatch,
            },
    {
        SplatCloud::from_attributes(self.position, self.scale, self.rotation, self.color, self.opacity, self.sh)
    }
}

} // verus!
