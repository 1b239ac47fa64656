//! The INR runtime format, version 1.
//!
//! A file is a container: the magic `INR1`, a version, a JSON index and one
//! binary blob. All references go by array index, and the node list is
//! flattened in pre-order. The library splits the container and reads the blob;
//! the JSON index is parsed by the caller.

use crate::composite::InxComposeHint;
use crate::scalar::Scalar;
use vstd::prelude::*;

pub use crate::inr_names::{
    InrBindingKind, InrBindingTarget, InrBlendMode, InrColorSpace, InrInterpolation, InrMapMode,
    InrMaskMode, InrMergeMode, InrNodeKind, InrPhysicsModel, InrTextureFormat,
};

verus! {

/// The bytes `INR1`, at the start of a container.
pub const MAGIC: [u8; 4] = [0x49, 0x4e, 0x52, 0x31];

/// The only version of the container that is read.
pub const VERSION: u32 = 1;

/// The magic at the start of a container.
pub open spec fn magic() -> Seq<u8> {
    seq![0x49u8, 0x4eu8, 0x52u8, 0x31u8]
}

/// Why a container or a part of it cannot be read.
#[derive(Debug)]
pub enum InrError {
    /// Not an INR file.
    BadMagic,
    /// Container version that is not supported.
    UnsupportedVersion(u32),
    /// The container ends early.
    Truncated,
    /// The JSON chunk is invalid.
    Json(String),
    /// Buffer view out of range.
    BadView(u32),
    /// Texture with an unsupported pixel format.
    UnsupportedTexture(usize),
    /// An authored puppet that cannot be read or converted.
    Authored(String),
}

/// A stretch of the binary blob.
#[derive(Debug, Clone, Copy, PartialEq, Eq, Structural)]
pub struct BufferView {
    pub offset: u32,
    pub length: u32,
}

#[derive(Debug)]
pub struct TextureDesc {
    pub width: u32,
    pub height: u32,
    /// Pixel layout.
    pub format: InrTextureFormat,
    /// Encoding of the RGB channels.
    pub color_space: InrColorSpace,
    /// RGB premultiplied by alpha (in `color_space`).
    pub premultiplied: bool,
    pub view: u32,
}

#[derive(Debug)]
pub struct Meta {
    pub name: Option<String>,
    pub rigger: Option<String>,
    pub artist: Option<String>,
    pub rights: Option<String>,
    pub copyright: Option<String>,
    pub license_url: Option<String>,
    pub contact: Option<String>,
    pub reference: Option<String>,
    pub source_version: Option<String>,
}

impl Default for Meta {
    fn default() -> (r: Meta)
        ensures
            r == (Meta {
                name: None,
                rigger: None,
                artist: None,
                rights: None,
                copyright: None,
                license_url: None,
                contact: None,
                reference: None,
                source_version: None,
            }),
    {
        Meta {
            name: None,
            rigger: None,
            artist: None,
            rights: None,
            copyright: None,
            license_url: None,
            contact: None,
            reference: None,
            source_version: None,
        }
    }
}

#[derive(Debug, Clone, Copy)]
pub struct Physics {
    pub pixels_per_meter: Scalar,
    pub gravity: Scalar,
}

#[derive(Debug, Clone, Copy)]
pub struct InrMesh {
    pub vertex_count: u32,
    /// View: x/y pairs.
    pub positions: u32,
    /// View: u/v pairs.
    pub uvs: u32,
    /// View: triangle indices.
    pub indices: u32,
    pub origin: [Scalar; 2],
}

#[derive(Debug, Clone, Copy, PartialEq, Eq, Structural)]
pub struct InrMask {
    /// Index into `nodes`.
    pub node: u32,
    pub mode: InrMaskMode,
}

#[derive(Debug)]
pub struct InrPart {
    /// Texture indices [albedo, emissive, bump]; -1 = none.
    pub textures: [i32; 3],
    pub blend_mode: InrBlendMode,
    pub tint: [Scalar; 3],
    pub screen_tint: [Scalar; 3],
    pub opacity: Scalar,
    pub emission_strength: Scalar,
    pub mask_threshold: Scalar,
    pub masks: Vec<InrMask>,
}

#[derive(Debug)]
pub struct InrComposite {
    pub blend_mode: InrBlendMode,
    pub tint: [Scalar; 3],
    pub screen_tint: [Scalar; 3],
    pub opacity: Scalar,
    pub mask_threshold: Scalar,
    pub masks: Vec<InrMask>,
    /// What the exporter found out about the overlap of the children.
    pub compose_hint: Option<InxComposeHint>,
    /// Whether the warp of an enclosing mesh group reaches the children.
    pub propagate_meshgroup: bool,
}

#[derive(Debug, Clone, Copy)]
pub struct InrPhysics {
    /// Index into `params`; -1 = unresolved.
    pub param: i32,
    pub model: InrPhysicsModel,
    pub map_mode: InrMapMode,
    pub gravity: Scalar,
    pub length: Scalar,
    pub frequency: Scalar,
    pub angle_damping: Scalar,
    pub length_damping: Scalar,
    pub output_scale: [Scalar; 2],
    pub local_only: bool,
}

#[derive(Debug)]
pub struct InrNode {
    pub name: String,
    pub uuid: u32,
    /// Index into `nodes`; absent on the root.
    pub parent: Option<u32>,
    pub kind: InrNodeKind,
    pub enabled: bool,
    pub zsort: Scalar,
    pub lock_to_root: bool,
    pub translation: [Scalar; 3],
    pub rotation: [Scalar; 3],
    pub scale: [Scalar; 2],
    pub mesh: Option<InrMesh>,
    pub part: Option<InrPart>,
    pub composite: Option<InrComposite>,
    pub physics: Option<InrPhysics>,
    /// Mesh groups only: warp the children from their deformed vertices.
    pub mesh_group_dynamic: bool,
}

#[derive(Debug)]
pub struct InrBinding {
    /// Index into `nodes`.
    pub node: u32,
    pub target: InrBindingTarget,
    pub interpolation: InrInterpolation,
    pub x_count: u32,
    pub y_count: u32,
    /// Row-major [x][y] authored flags, flattened.
    pub is_set: Vec<bool>,
    pub kind: InrBindingKind,
    pub view: u32,
}

#[derive(Debug)]
pub struct InrParam {
    pub name: String,
    pub uuid: u32,
    pub is_vec2: bool,
    pub min: [Scalar; 2],
    pub max: [Scalar; 2],
    pub defaults: [Scalar; 2],
    pub axis_points: [Vec<Scalar>; 2],
    pub merge_mode: InrMergeMode,
    pub bindings: Vec<InrBinding>,
}

#[derive(Debug)]
pub struct InrLane {
    /// Index into `params`; -1 = unresolved.
    pub param: i32,
    /// 0 = X, 1 = Y.
    pub target: u8,
    pub interpolation: InrInterpolation,
    pub merge_mode: InrMergeMode,
    /// [frame, value, tension] per keyframe.
    pub keyframes: Vec<[Scalar; 3]>,
}

#[derive(Debug)]
pub struct InrAnimation {
    pub name: String,
    pub timestep: Scalar,
    pub additive: bool,
    pub length: u32,
    pub lead_in: u32,
    pub lead_out: u32,
    /// 1 where the file gives none.
    pub weight: Scalar,
    pub lanes: Vec<InrLane>,
}

/// The JSON index.
#[derive(Debug)]
pub struct InrDoc {
    pub meta: Meta,
    pub physics: Physics,
    pub buffer_views: Vec<BufferView>,
    pub textures: Vec<TextureDesc>,
    /// Flattened pre-order: a parent always precedes its children.
    pub nodes: Vec<InrNode>,
    pub params: Vec<InrParam>,
    pub animations: Vec<InrAnimation>,
    /// Baked silhouettes of the parts that are used as masks, by the UUID of the
    /// node: polygons in UV space.
    pub mask_contours: Vec<(u32, Vec<Vec<[Scalar; 2]>>)>,
}

/// A parsed container: JSON document and binary blob.
#[derive(Debug)]
pub struct InrModel {
    pub doc: InrDoc,
    pub bin: Vec<u8>,
}

/// Four bytes as a number, the lowest byte first.
pub open spec fn little(b: Seq<u8>, at: int) -> int {
    b[at] + 0x100 * b[at + 1] + 0x1_0000 * b[at + 2] + 0x100_0000 * b[at + 3]
}

/// Four bytes as a number, the highest byte first.
pub open spec fn big(b: Seq<u8>, at: int) -> int {
    0x100_0000 * b[at] + 0x1_0000 * b[at + 1] + 0x100 * b[at + 2] + b[at + 3]
}

/// Where the JSON chunk of a container ends.
pub open spec fn json_end(b: Seq<u8>) -> int {
    16 + little(b, 8)
}

/// Where the binary blob of a container ends.
pub open spec fn bin_end(b: Seq<u8>) -> int {
    json_end(b) + little(b, 12)
}

/// The JSON chunk and the binary blob of a container, or what is wrong with it.
/// Bytes after the blob are ignored.
pub open spec fn frame_of(b: Seq<u8>) -> Result<(Seq<u8>, Seq<u8>), InrError> {
    if b.len() < 16 {
        Err(InrError::Truncated)
    } else if b.subrange(0, 4) != magic() {
        Err(InrError::BadMagic)
    } else if little(b, 4) != VERSION {
        Err(InrError::UnsupportedVersion(little(b, 4) as u32))
    } else if b.len() < bin_end(b) {
        Err(InrError::Truncated)
    } else {
        Ok((b.subrange(16, json_end(b)), b.subrange(json_end(b), bin_end(b))))
    }
}

fn u32_at(bytes: &[u8], at: usize) -> (r: u32)
    requires
        at + 4 <= bytes@.len(),
    ensures
        r == little(bytes@, at as int),
{
    bytes[at] as u32 + 0x100 * bytes[at + 1] as u32 + 0x1_0000 * bytes[at + 2] as u32 + 0x100_0000
        * bytes[at + 3] as u32
}

/// The byte ranges of a container's JSON chunk and binary blob: where the first
/// ends and the second starts, and where the second ends.
fn frame(bytes: &[u8]) -> (r: Result<(usize, usize), InrError>)
    ensures
        match r {
            Ok((mid, end)) => {
                &&& 16 <= mid <= end <= bytes@.len()
                &&& frame_of(bytes@) == Ok::<(Seq<u8>, Seq<u8>), InrError>(
                    (bytes@.subrange(16, mid as int), bytes@.subrange(mid as int, end as int)),
                )
            },
            Err(e) => frame_of(bytes@) == Err::<(Seq<u8>, Seq<u8>), InrError>(e),
        },
{
    let len: usize = bytes.len();
    if len < 16 {
        return Err(InrError::Truncated);
    }
    if bytes[0] != MAGIC[0] || bytes[1] != MAGIC[1] || bytes[2] != MAGIC[2] || bytes[3] != MAGIC[3] {
        proof {
            let head = bytes@.subrange(0, 4);
            assert(head[0] == bytes@[0] && head[1] == bytes@[1] && head[2] == bytes@[2] && head[3]
                == bytes@[3]);
            assert(head != magic());
        }
        return Err(InrError::BadMagic);
    }
    assert(bytes@.subrange(0, 4) =~= magic());
    let version: u32 = u32_at(bytes, 4);
    if version != VERSION {
        return Err(InrError::UnsupportedVersion(version));
    }
    let json_len: usize = u32_at(bytes, 8) as usize;
    let bin_len: usize = u32_at(bytes, 12) as usize;
    if json_len > len - 16 {
        return Err(InrError::Truncated);
    }
    let mid: usize = 16 + json_len;
    if bin_len > len - mid {
        return Err(InrError::Truncated);
    }
    Ok((mid, mid + bin_len))
}

/// The words are those of the bytes: one for each four bytes, the lowest byte
/// first.
pub open spec fn words(bytes: Seq<u8>, r: Seq<u32>) -> bool {
    &&& r.len() * 4 == bytes.len()
    &&& forall|i: int| 0 <= i < r.len() ==> #[trigger] r[i] == little(bytes, i * 4)
}

fn collect_words(bytes: &[u8]) -> (r: Vec<u32>)
    requires
        bytes@.len() % 4 == 0,
    ensures
        words(bytes@, r@),
{
    let total: usize = bytes.len();
    let count: usize = total / 4;
    let mut r: Vec<u32> = Vec::new();
    let mut i: usize = 0;
    while i < count
        invariant
            total == bytes@.len(),
            count * 4 == total,
            i <= count,
            r@.len() == i,
            forall|j: int| 0 <= j < i ==> #[trigger] r@[j] == little(bytes@, j * 4),
        decreases count - i,
    {
        r.push(u32_at(bytes, i * 4));
        i = i + 1;
    }
    r
}

/// The bytes of a buffer view, if the view exists and lies in the blob.
pub open spec fn view_of(views: Seq<BufferView>, bin: Seq<u8>, view: u32) -> Option<Seq<u8>> {
    if view < views.len() && views[view as int].offset + views[view as int].length <= bin.len() {
        let v = views[view as int];
        Some(bin.subrange(v.offset as int, v.offset + v.length))
    } else {
        None
    }
}

/// The result of reading a document, as JSON text, and a blob: what the parser
/// made of the text with the blob, or the parser's complaint.
pub open spec fn reads_as<F: FnOnce(&[u8]) -> Result<InrDoc, String>>(
    parse: F,
    json: Seq<u8>,
    bin: Seq<u8>,
    r: Result<InrModel, InrError>,
) -> bool {
    exists|chunk: &[u8], parsed: Result<InrDoc, String>|
        {
            &&& chunk@ == json
            &&& #[trigger] parse.ensures((chunk,), parsed)
            &&& match parsed {
                Ok(doc) => r matches Ok(model) && model.doc == doc && model.bin@ == bin,
                Err(message) => r == Err::<InrModel, InrError>(InrError::Json(message)),
            }
        }
}

impl InrModel {
    /// The bytes of a buffer view.
    pub open spec fn view(self, view: u32) -> Option<Seq<u8>> {
        view_of(self.doc.buffer_views@, self.bin@, view)
    }

    /// The bytes of a buffer view that holds whole words.
    pub open spec fn word_view(self, view: u32) -> Option<Seq<u8>> {
        match self.view(view) {
            Some(b) => if b.len() % 4 == 0 {
                Some(b)
            } else {
                None
            },
            None => None,
        }
    }

    /// Puts a model together from its document, as JSON text, and its blob.
    pub fn from_parts<F: FnOnce(&[u8]) -> Result<InrDoc, String>>(
        json: &[u8],
        bin: Vec<u8>,
        parse: F,
    ) -> (r: Result<InrModel, InrError>)
        requires
            parse.requires((json,)),
        ensures
            reads_as(parse, json@, bin@, r),
    {
        let parsed = parse(json);
        assert(parse.ensures((json,), parsed));
        match parsed {
            Err(message) => Err(InrError::Json(message)),
            Ok(doc) => Ok(InrModel { doc, bin }),
        }
    }

    /// Reads a container, with the parser for its JSON chunk. The parser is
    /// only asked where the container is intact.
    pub fn from_bytes<F: FnOnce(&[u8]) -> Result<InrDoc, String>>(
        bytes: &[u8],
        parse: F,
    ) -> (r: Result<InrModel, InrError>)
        requires
            forall|json: &[u8]| #[trigger] parse.requires((json,)),
        ensures
            match frame_of(bytes@) {
                Err(e) => r == Err::<InrModel, InrError>(e),
                Ok((json, bin)) => reads_as(parse, json, bin, r),
            },
    {
        match frame(bytes) {
            Err(e) => Err(e),
            Ok((mid, end)) => {
                let chunk = vstd::slice::slice_subrange(bytes, 16, mid);
                let bin = vstd::slice::slice_to_vec(
                    vstd::slice::slice_subrange(bytes, mid, end),
                );
                InrModel::from_parts(chunk, bin, parse)
            },
        }
    }

    /// The bytes of a buffer view.
    pub fn view_bytes(&self, view: u32) -> (r: Result<&[u8], InrError>)
        ensures
            match self.view(view) {
                Some(b) => r matches Ok(s) && s@ == b,
                None => r == Err::<&[u8], InrError>(InrError::BadView(view)),
            },
    {
        if view as usize >= self.doc.buffer_views.len() {
            return Err(InrError::BadView(view));
        }
        let v = self.doc.buffer_views[view as usize];
        let start: usize = v.offset as usize;
        let length: usize = v.length as usize;
        let total: usize = self.bin.len();
        if start > total || length > total - start {
            return Err(InrError::BadView(view));
        }
        Ok(vstd::slice::slice_subrange(self.bin.as_slice(), start, start + length))
    }

    /// The words of a buffer view. A view that does not hold whole words is
    /// refused.
    pub fn view_u32(&self, view: u32) -> (r: Result<Vec<u32>, InrError>)
        ensures
            match self.word_view(view) {
                Some(b) => r matches Ok(v) && words(b, v@),
                None => r == Err::<Vec<u32>, InrError>(InrError::BadView(view)),
            },
    {
        match self.view_bytes(view) {
            Err(e) => Err(e),
            Ok(b) => {
                if b.len() % 4 != 0 {
                    return Err(InrError::BadView(view));
                }
                Ok(collect_words(b))
            },
        }
    }

    /// The numbers of a buffer view, each by its bit pattern.
    pub fn view_f32(&self, view: u32) -> (r: Result<Vec<Scalar>, InrError>)
        ensures
            match self.word_view(view) {
                Some(b) => r matches Ok(v) && words(b, v@.map_values(|x: Scalar| x.bits)),
                None => r == Err::<Vec<Scalar>, InrError>(InrError::BadView(view)),
            },
    {
        match self.view_u32(view) {
            Err(e) => Err(e),
            Ok(bits) => {
                let numbers = as_scalars(&bits);
                assert(numbers@.map_values(|x: Scalar| x.bits) =~= bits@);
                Ok(numbers)
            },
        }
    }
}

/// Numbers from their bit patterns.
fn as_scalars(bits: &Vec<u32>) -> (r: Vec<Scalar>)
    ensures
        r@ == bits@.map_values(|b: u32| Scalar { bits: b }),
{
    let mut r: Vec<Scalar> = Vec::new();
    let mut i: usize = 0;
    while i < bits.len()
        invariant
            i <= bits@.len(),
            r@ == bits@.take(i as int).map_values(|b: u32| Scalar { bits: b }),
        decreases bits@.len() - i,
    {
        r.push(Scalar { bits: bits[i] });
        i = i + 1;
        assert(r@ =~= bits@.take(i as int).map_values(|b: u32| Scalar { bits: b }));
    }
    assert(bits@.take(i as int) =~= bits@);
    r
}

/// A number below 2^32 as four bytes, the lowest first.
pub open spec fn bytes_of(n: int) -> Seq<u8> {
    seq![
        (n % 0x100) as u8,
        (n / 0x100 % 0x100) as u8,
        (n / 0x1_0000 % 0x100) as u8,
        (n / 0x100_0000 % 0x100) as u8,
    ]
}

/// A container with a JSON chunk and a binary blob.
pub open spec fn container(json: Seq<u8>, bin: Seq<u8>) -> Seq<u8> {
    magic() + bytes_of(VERSION as int) + bytes_of(json.len() as int) + bytes_of(bin.len() as int)
        + json + bin
}

proof fn lemma_bytes_of(s: Seq<u8>, at: int, n: int)
    requires
        0 <= n < 0x1_0000_0000,
        0 <= at,
        at + 4 <= s.len(),
        s.subrange(at, at + 4) == bytes_of(n),
    ensures
        little(s, at) == n,
{
    let b = s.subrange(at, at + 4);
    assert(s[at] == b[0] && s[at + 1] == b[1] && s[at + 2] == b[2] && s[at + 3] == b[3]);
    assert(n / 0x100 / 0x100 == n / 0x1_0000);
    assert(n / 0x1_0000 / 0x100 == n / 0x100_0000);
}

/// The words of a view, written out again, are its bytes.
pub proof fn lemma_words_write_back(bytes: Seq<u8>, r: Seq<u32>, i: int)
    requires
        words(bytes, r),
        0 <= i < r.len(),
    ensures
        bytes_of(r[i] as int) == bytes.subrange(4 * i, 4 * i + 4),
{
    let at = i * 4;
    let n = r[i] as int;
    let b = bytes.subrange(4 * i, 4 * i + 4);
    assert(n == little(bytes, at));
    assert(b[0] == bytes[at] && b[1] == bytes[at + 1] && b[2] == bytes[at + 2] && b[3]
        == bytes[at + 3]);
    let (w, x, y, z) = (b[0] as int, b[1] as int, b[2] as int, b[3] as int);
    assert(n == w + 0x100 * x + 0x1_0000 * y + 0x100_0000 * z);
    assert(n % 0x100 == w && n / 0x100 == x + 0x100 * y + 0x1_0000 * z);
    assert(n / 0x100 % 0x100 == x && n / 0x1_0000 == y + 0x100 * z);
    assert(n / 0x1_0000 % 0x100 == y && n / 0x100_0000 == z);
    assert(bytes_of(n) =~= b);
}

/// A container gives back the JSON chunk and the blob that it was made of.
pub proof fn lemma_container_reads_back(json: Seq<u8>, bin: Seq<u8>)
    requires
        json.len() < 0x1_0000_0000,
        bin.len() < 0x1_0000_0000,
    ensures
        frame_of(container(json, bin)) == Ok::<(Seq<u8>, Seq<u8>), InrError>((json, bin)),
{
    let c = container(json, bin);
    let j = json.len() as int;
    let b = bin.len() as int;
    assert(c.subrange(0, 4) =~= magic());
    assert(c.subrange(4, 8) =~= bytes_of(VERSION as int));
    assert(c.subrange(8, 12) =~= bytes_of(j));
    assert(c.subrange(12, 16) =~= bytes_of(b));
    lemma_bytes_of(c, 4, VERSION as int);
    lemma_bytes_of(c, 8, j);
    lemma_bytes_of(c, 12, b);
    assert(c.subrange(16, 16 + j) =~= json);
    assert(c.subrange(16 + j, 16 + j + b) =~= bin);
}

} // verus!
