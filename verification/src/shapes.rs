//! The shapes of the tables and meshes of an authored puppet.
//!
//! An authored puppet is a container with a JSON tree. The parser of such
//! puppets takes it for granted that the tables of bindings are rectangular,
//! that no axis is too long and that no mesh is a single number. This is tested
//! here, on the tree as the parser will see it, before it is asked.

use json::number::Number;
use json::object::Object;
use json::short::Short;
use json::JsonValue;
use vstd::prelude::*;

use crate::inr_names::same_text;

verus! {

/// A JSON value, with its variants.
#[verifier::external_type_specification]
pub struct ExJsonValue(JsonValue);

/// A JSON number, as an opaque type.
#[verifier::external_type_specification]
#[verifier::external_body]
pub struct ExNumber(Number);

/// A JSON object, as an opaque type.
#[verifier::external_type_specification]
#[verifier::external_body]
pub struct ExObject(Object);

/// A short JSON string, as an opaque type.
#[verifier::external_type_specification]
#[verifier::external_body]
pub struct ExShort(Short);

/// The tree that a JSON text stands for, if it is one.
pub uninterp spec fn json_tree(text: Seq<u8>) -> Option<JsonValue>;

/// What an object holds under a key.
pub uninterp spec fn object_member(object: Object, key: Seq<char>) -> Option<JsonValue>;

/// The characters of a value, if it is a string.
pub uninterp spec fn text_of(value: JsonValue) -> Option<Seq<char>>;

/// So many zeros in a row are more than a number of a text may hold.
pub const ZERO_LIMIT: usize = 0x7fe0;

/// How many bytes `0` there are in a row before position `k`.
pub open spec fn zeros_before(bytes: Seq<u8>, k: nat) -> nat
    decreases k,
{
    if k > 0 && bytes[k - 1] == 0x30 {
        zeros_before(bytes, (k - 1) as nat) + 1
    } else {
        0
    }
}

/// No number in the bytes is too long.
pub open spec fn short_numbers(bytes: Seq<u8>) -> bool {
    forall|k: nat| k <= bytes.len() ==> #[trigger] zeros_before(bytes, k) < ZERO_LIMIT
}

/// `json::parse`, on the text that the bytes encode. What it returns depends on
/// the bytes alone; bytes that are no text, and texts that are no JSON, have no
/// tree. Its counter of decimals has 16 bits, so it wants few zeros in a row.
#[verifier::external_body]
fn parse_json(text: &[u8]) -> (r: Option<JsonValue>)
    requires
        short_numbers(text@),
    ensures
        r == json_tree(text@),
{
    json::parse(std::str::from_utf8(text).ok()?).ok()
}

/// `Object::get`: what the object holds under the key.
#[verifier::external_body]
fn object_get<'a>(object: &'a Object, key: &str) -> (r: Option<&'a JsonValue>)
    ensures
        match r {
            Some(value) => object_member(*object, key@) == Some(*value),
            None => object_member(*object, key@) is None,
        },
{
    object.get(key)
}

/// `JsonValue::as_str`: the characters of a string.
#[verifier::external_body]
fn string_in(value: &JsonValue) -> (r: Option<&str>)
    ensures
        match r {
            Some(text) => text_of(*value) == Some(text@),
            None => text_of(*value) is None,
        },
{
    value.as_str()
}

/// Whether no number in the bytes is too long.
pub fn has_short_numbers(bytes: &[u8]) -> (r: bool)
    ensures
        r == short_numbers(bytes@),
{
    let mut run: usize = 0;
    let mut k: usize = 0;
    while k < bytes.len()
        invariant
            k <= bytes@.len(),
            run == zeros_before(bytes@, k as nat),
            run < ZERO_LIMIT,
            forall|j: nat| j <= k ==> #[trigger] zeros_before(bytes@, j) < ZERO_LIMIT,
        decreases bytes@.len() - k,
    {
        run = if bytes[k] == 0x30 {
            run + 1
        } else {
            0
        };
        k = k + 1;
        if run >= ZERO_LIMIT {
            assert(zeros_before(bytes@, k as nat) >= ZERO_LIMIT);
            return false;
        }
    }
    true
}

/// What a value holds under a key; only objects hold anything.
pub open spec fn member(value: JsonValue, key: Seq<char>) -> Option<JsonValue> {
    match value {
        JsonValue::Object(object) => object_member(object, key),
        _ => None,
    }
}

/// The items of a value; only arrays have any.
pub open spec fn items(value: JsonValue) -> Seq<JsonValue> {
    match value {
        JsonValue::Array(list) => list@,
        _ => Seq::empty(),
    }
}

/// The items of the array that a value holds under a key.
pub open spec fn list_of(value: JsonValue, key: Seq<char>) -> Seq<JsonValue> {
    match member(value, key) {
        Some(list) => items(list),
        None => Seq::empty(),
    }
}

/// The string that a value holds under a key.
pub open spec fn string_of(value: JsonValue, key: Seq<char>) -> Option<Seq<char>> {
    match member(value, key) {
        Some(text) => text_of(text),
        None => None,
    }
}

fn member_of<'a>(value: &'a JsonValue, key: &str) -> (r: Option<&'a JsonValue>)
    ensures
        match r {
            Some(held) => member(*value, key@) == Some(*held),
            None => member(*value, key@) is None,
        },
{
    match value {
        JsonValue::Object(object) => object_get(object, key),
        _ => None,
    }
}

fn items_of(value: &JsonValue) -> (r: &[JsonValue])
    ensures
        r@ == items(*value),
{
    match value {
        JsonValue::Array(list) => list.as_slice(),
        _ => &[],
    }
}

fn list_at<'a>(value: &'a JsonValue, key: &str) -> (r: &'a [JsonValue])
    ensures
        r@ == list_of(*value, key@),
{
    match member_of(value, key) {
        Some(list) => items_of(list),
        None => &[],
    }
}

fn string_at<'a>(value: &'a JsonValue, key: &str) -> (r: Option<&'a str>)
    ensures
        match r {
            Some(text) => string_of(*value, key@) == Some(text@),
            None => string_of(*value, key@) is None,
        },
{
    match member_of(value, key) {
        Some(text) => string_in(text),
        None => None,
    }
}

/// How many of the values are numbers.
pub open spec fn numbers(row: Seq<JsonValue>) -> nat
    decreases row.len(),
{
    if row.len() == 0 {
        0
    } else {
        numbers(row.drop_last()) + if row.last() is Number {
            1nat
        } else {
            0
        }
    }
}

fn count_numbers(row: &[JsonValue]) -> (r: usize)
    ensures
        r == numbers(row@),
{
    let mut n: usize = 0;
    let mut i: usize = 0;
    while i < row.len()
        invariant
            i <= row@.len(),
            n <= i,
            n == numbers(row@.take(i as int)),
        decreases row@.len() - i,
    {
        proof {
            let now = row@.take(i + 1);
            assert(now.drop_last() =~= row@.take(i as int));
            assert(now.last() == row@[i as int]);
        }
        match &row[i] {
            JsonValue::Number(_) => {
                n = n + 1;
            },
            _ => {},
        }
        i = i + 1;
    }
    assert(row@.take(i as int) =~= row@);
    n
}

/// A table of numbers: rows that are arrays hold equally many numbers, and one
/// at least.
pub open spec fn even_scalars(table: Seq<JsonValue>) -> bool {
    &&& forall|i: int|
        0 <= i < table.len() && #[trigger] table[i] is Array ==> numbers(items(table[i])) >= 1
    &&& forall|i: int, j: int|
        #![trigger table[i], table[j]]
        0 <= i < j < table.len() && table[i] is Array && table[j] is Array ==> numbers(
            items(table[i]),
        ) == numbers(items(table[j]))
}

fn has_even_scalars(table: &[JsonValue]) -> (r: bool)
    ensures
        r == even_scalars(table@),
{
    let mut first: Option<usize> = None;
    let ghost mut at: int = 0;
    let mut i: usize = 0;
    while i < table.len()
        invariant
            i <= table@.len(),
            first is None ==> forall|j: int| 0 <= j < i ==> !(#[trigger] table@[j] is Array),
            first matches Some(n) ==> {
                &&& n >= 1
                &&& 0 <= at < i
                &&& table@[at] is Array
                &&& forall|j: int|
                    0 <= j < i && #[trigger] table@[j] is Array ==> numbers(items(table@[j])) == n
            },
        decreases table@.len() - i,
    {
        if let JsonValue::Array(row) = &table[i] {
            let n: usize = count_numbers(row.as_slice());
            assert(numbers(items(table@[i as int])) == n);
            if n == 0 {
                return false;
            }
            match first {
                Some(m) => {
                    if m != n {
                        assert(numbers(items(table@[at])) == m);
                        return false;
                    }
                },
                None => {
                    first = Some(n);
                    proof {
                        at = i as int;
                    }
                },
            }
        }
        i = i + 1;
    }
    true
}

/// The value is an array that starts with two numbers.
pub open spec fn is_pair(value: JsonValue) -> bool {
    let list = items(value);
    list.len() >= 2 && list[0] is Number && list[1] is Number
}

/// How many of the values are pairs.
pub open spec fn pairs(list: Seq<JsonValue>) -> nat
    decreases list.len(),
{
    if list.len() == 0 {
        0
    } else {
        pairs(list.drop_last()) + if is_pair(list.last()) {
            1nat
        } else {
            0
        }
    }
}

/// How many pairs the values hold together.
pub open spec fn pairs_within(row: Seq<JsonValue>) -> nat
    decreases row.len(),
{
    if row.len() == 0 {
        0
    } else {
        pairs_within(row.drop_last()) + pairs(items(row.last()))
    }
}

fn is_number(value: &JsonValue) -> (r: bool)
    ensures
        r == (*value is Number),
{
    match value {
        JsonValue::Number(_) => true,
        _ => false,
    }
}

fn count_pairs(list: &[JsonValue]) -> (r: usize)
    ensures
        r == pairs(list@),
{
    let mut n: usize = 0;
    let mut i: usize = 0;
    while i < list.len()
        invariant
            i <= list@.len(),
            n <= i,
            n == pairs(list@.take(i as int)),
        decreases list@.len() - i,
    {
        proof {
            let now = list@.take(i + 1);
            assert(now.drop_last() =~= list@.take(i as int));
            assert(now.last() == list@[i as int]);
        }
        let pair = items_of(&list[i]);
        if pair.len() >= 2 && is_number(&pair[0]) && is_number(&pair[1]) {
            n = n + 1;
        }
        i = i + 1;
    }
    assert(list@.take(i as int) =~= list@);
    n
}

fn count_pairs_within(row: &[JsonValue]) -> (r: u128)
    ensures
        r == pairs_within(row@),
{
    let mut n: u128 = 0;
    let mut i: usize = 0;
    while i < row.len()
        invariant
            i <= row@.len(),
            n <= i * 0xffff_ffff_ffff_ffff,
            n == pairs_within(row@.take(i as int)),
        decreases row@.len() - i,
    {
        proof {
            let now = row@.take(i + 1);
            assert(now.drop_last() =~= row@.take(i as int));
            assert(now.last() == row@[i as int]);
        }
        let more: usize = count_pairs(items_of(&row[i]));
        n = n + more as u128;
        i = i + 1;
    }
    assert(row@.take(i as int) =~= row@);
    n
}

/// A table of offsets: all rows hold equally many pairs.
pub open spec fn even_offsets(table: Seq<JsonValue>) -> bool {
    forall|i: int|
        0 <= i < table.len() ==> pairs_within(items(#[trigger] table[i])) == pairs_within(
            items(table[0]),
        )
}

fn has_even_offsets(table: &[JsonValue]) -> (r: bool)
    ensures
        r == even_offsets(table@),
{
    if table.len() == 0 {
        return true;
    }
    let first: u128 = count_pairs_within(items_of(&table[0]));
    let mut i: usize = 0;
    while i < table.len()
        invariant
            table@.len() > 0,
            i <= table@.len(),
            first == pairs_within(items(table@[0])),
            forall|j: int| 0 <= j < i ==> pairs_within(items(#[trigger] table@[j])) == first,
        decreases table@.len() - i,
    {
        if count_pairs_within(items_of(&table[i])) != first {
            assert(pairs_within(items(table@[i as int])) != first);
            return false;
        }
        i = i + 1;
    }
    true
}

/// The name of a target that takes numbers.
pub open spec fn takes_numbers(name: Seq<char>) -> bool {
    ||| name == "transform.t.x"@
    ||| name == "transform.t.y"@
    ||| name == "transform.t.z"@
    ||| name == "transform.s.x"@
    ||| name == "transform.s.y"@
    ||| name == "transform.r.x"@
    ||| name == "transform.r.y"@
    ||| name == "transform.r.z"@
    ||| name == "opacity"@
}

fn is_taking_numbers(name: &str) -> (r: bool)
    ensures
        r == takes_numbers(name@),
{
    same_text(name, "transform.t.x") || same_text(name, "transform.t.y") || same_text(
        name,
        "transform.t.z",
    ) || same_text(name, "transform.s.x") || same_text(name, "transform.s.y") || same_text(
        name,
        "transform.r.x",
    ) || same_text(name, "transform.r.y") || same_text(name, "transform.r.z") || same_text(
        name,
        "opacity",
    )
}

/// The table of a binding is rectangular. What an unknown target takes is not
/// read.
pub open spec fn binding_shaped(binding: JsonValue) -> bool {
    let table = list_of(binding, "values"@);
    match string_of(binding, "param_name"@) {
        Some(name) => if name == "deform"@ {
            even_offsets(table)
        } else {
            takes_numbers(name) ==> even_scalars(table)
        },
        None => true,
    }
}

fn is_binding_shaped(binding: &JsonValue) -> (r: bool)
    ensures
        r == binding_shaped(*binding),
{
    let table = list_at(binding, "values");
    match string_at(binding, "param_name") {
        Some(name) => if same_text(name, "deform") {
            has_even_offsets(table)
        } else if is_taking_numbers(name) {
            has_even_scalars(table)
        } else {
            true
        },
        None => true,
    }
}

/// The most points that an axis may have: positions on it are counted in single
/// precision.
pub const AXIS_LIMIT: usize = 0x100_0000;

/// No axis of a param is too long.
pub open spec fn short_axes(param: JsonValue) -> bool {
    let axes = list_of(param, "axis_points"@);
    forall|i: int| 0 <= i < axes.len() ==> items(#[trigger] axes[i]).len() <= AXIS_LIMIT
}

fn has_short_axes(param: &JsonValue) -> (r: bool)
    ensures
        r == short_axes(*param),
{
    let axes = list_at(param, "axis_points");
    let mut i: usize = 0;
    while i < axes.len()
        invariant
            axes@ == list_of(*param, "axis_points"@),
            i <= axes@.len(),
            forall|j: int| 0 <= j < i ==> items(#[trigger] axes@[j]).len() <= AXIS_LIMIT,
        decreases axes@.len() - i,
    {
        if items_of(&axes[i]).len() > AXIS_LIMIT {
            assert(items(axes@[i as int]).len() > AXIS_LIMIT);
            return false;
        }
        i = i + 1;
    }
    true
}

/// The axes of a param are not too long, and all its bindings are shaped.
pub open spec fn param_shaped(param: JsonValue) -> bool {
    let bindings = list_of(param, "bindings"@);
    &&& short_axes(param)
    &&& forall|i: int| 0 <= i < bindings.len() ==> binding_shaped(#[trigger] bindings[i])
}

fn is_param_shaped(param: &JsonValue) -> (r: bool)
    ensures
        r == param_shaped(*param),
{
    if !has_short_axes(param) {
        return false;
    }
    let bindings = list_at(param, "bindings");
    let mut i: usize = 0;
    while i < bindings.len()
        invariant
            short_axes(*param),
            bindings@ == list_of(*param, "bindings"@),
            i <= bindings@.len(),
            forall|j: int| 0 <= j < i ==> binding_shaped(#[trigger] bindings@[j]),
        decreases bindings@.len() - i,
    {
        if !is_binding_shaped(&bindings[i]) {
            assert(!binding_shaped(bindings@[i as int]));
            return false;
        }
        i = i + 1;
    }
    true
}

/// The mesh of a node, if it has one, is not a single number.
pub open spec fn mesh_shaped(node: JsonValue) -> bool {
    member(node, "mesh"@) matches Some(mesh) ==> list_of(mesh, "verts"@).len() != 1
}

fn is_mesh_shaped(node: &JsonValue) -> (r: bool)
    ensures
        r == mesh_shaped(*node),
{
    match member_of(node, "mesh") {
        Some(mesh) => list_at(mesh, "verts").len() != 1,
        None => true,
    }
}

/// How deep nodes may nest. JSON trees are not read this deep.
pub const DEPTH_LIMIT: usize = 512;

/// The meshes at and below a node are shaped, and nodes nest no deeper than
/// `depth`.
pub open spec fn node_shaped(node: JsonValue, depth: nat) -> bool
    decreases depth,
{
    &&& depth > 0
    &&& mesh_shaped(node)
    &&& forall|i: int|
        0 <= i < list_of(node, "children"@).len() ==> node_shaped(
            #[trigger] list_of(node, "children"@)[i],
            (depth - 1) as nat,
        )
}

fn is_node_shaped(node: &JsonValue, depth: usize) -> (r: bool)
    ensures
        r == node_shaped(*node, depth as nat),
    decreases depth,
{
    if depth == 0 || !is_mesh_shaped(node) {
        return false;
    }
    let children = list_at(node, "children");
    let mut i: usize = 0;
    while i < children.len()
        invariant
            depth > 0,
            mesh_shaped(*node),
            children@ == list_of(*node, "children"@),
            i <= children@.len(),
            forall|j: int|
                0 <= j < i ==> node_shaped(#[trigger] children@[j], (depth - 1) as nat),
        decreases children@.len() - i,
    {
        if !is_node_shaped(&children[i], depth - 1) {
            assert(!node_shaped(list_of(*node, "children"@)[i as int], (depth - 1) as nat));
            return false;
        }
        i = i + 1;
    }
    true
}

/// All tables and meshes of a puppet are shaped.
pub open spec fn well_shaped(puppet: JsonValue) -> bool {
    let params = list_of(puppet, "param"@);
    &&& forall|i: int| 0 <= i < params.len() ==> param_shaped(#[trigger] params[i])
    &&& member(puppet, "nodes"@) matches Some(root) ==> node_shaped(root, DEPTH_LIMIT as nat)
}

/// Whether all tables and meshes of a puppet are shaped.
pub fn is_well_shaped(puppet: &JsonValue) -> (r: bool)
    ensures
        r == well_shaped(*puppet),
{
    let params = list_at(puppet, "param");
    let mut i: usize = 0;
    while i < params.len()
        invariant
            params@ == list_of(*puppet, "param"@),
            i <= params@.len(),
            forall|j: int| 0 <= j < i ==> param_shaped(#[trigger] params@[j]),
        decreases params@.len() - i,
    {
        if !is_param_shaped(&params[i]) {
            assert(!param_shaped(params@[i as int]));
            return false;
        }
        i = i + 1;
    }
    match member_of(puppet, "nodes") {
        Some(root) => is_node_shaped(root, DEPTH_LIMIT),
        None => true,
    }
}

/// The JSON text in an authored puppet: behind a magic of eight bytes and its
/// length.
pub open spec fn payload(bytes: Seq<u8>) -> Option<Seq<u8>> {
    if bytes.len() >= 12 && bytes.len() - 12 >= crate::inr::big(bytes, 8) {
        Some(bytes.subrange(12, 12 + crate::inr::big(bytes, 8)))
    } else {
        None
    }
}

/// Where `count` textures end that start at `at`: each has a length, a byte for
/// its format and its data. What is cut off ends with the bytes.
pub open spec fn behind_textures(bytes: Seq<u8>, at: int, count: nat) -> int
    decreases count,
{
    if count == 0 {
        at
    } else if bytes.len() - at < 5 || bytes.len() - at - 5 < crate::inr::big(bytes, at) {
        bytes.len() as int
    } else {
        behind_textures(bytes, at + 5 + crate::inr::big(bytes, at), (count - 1) as nat)
    }
}

/// What follows the textures of an authored puppet. They stand behind the text,
/// a magic of eight bytes and their number.
pub open spec fn extras(bytes: Seq<u8>) -> Seq<u8> {
    let end = 12 + crate::inr::big(bytes, 8);
    if bytes.len() - end < 12 {
        Seq::empty()
    } else {
        bytes.subrange(
            behind_textures(bytes, end + 12, crate::inr::big(bytes, end + 8) as nat),
            bytes.len() as int,
        )
    }
}

/// The bytes can be handed to the parser of authored puppets. What is no puppet
/// it finds out itself.
pub open spec fn presentable(bytes: Seq<u8>) -> bool {
    payload(bytes) matches Some(text) ==> {
        &&& short_numbers(text)
        &&& short_numbers(extras(bytes))
        &&& json_tree(text) matches Some(tree) ==> well_shaped(tree)
    }
}

fn number_at(bytes: &[u8], at: usize) -> (r: u32)
    requires
        at + 4 <= bytes@.len(),
    ensures
        r == crate::inr::big(bytes@, at as int),
{
    0x100_0000 * bytes[at] as u32 + 0x1_0000 * bytes[at + 1] as u32 + 0x100 * bytes[at + 2] as u32
        + bytes[at + 3] as u32
}

fn textures_end(bytes: &[u8], start: usize, count: u32) -> (r: usize)
    requires
        start <= bytes@.len(),
    ensures
        r == behind_textures(bytes@, start as int, count as nat),
        start <= r <= bytes@.len(),
{
    let mut at: usize = start;
    let mut left: u32 = count;
    while left > 0
        invariant
            start <= at <= bytes@.len(),
            behind_textures(bytes@, at as int, left as nat) == behind_textures(
                bytes@,
                start as int,
                count as nat,
            ),
        decreases left,
    {
        if bytes.len() - at < 5 {
            return bytes.len();
        }
        let size: u32 = number_at(bytes, at);
        if bytes.len() - at - 5 < size as usize {
            return bytes.len();
        }
        at = at + 5 + size as usize;
        left = left - 1;
    }
    at
}

/// Whether the bytes can be handed to the parser of authored puppets.
pub fn is_presentable(bytes: &[u8]) -> (r: bool)
    ensures
        r == presentable(bytes@),
{
    if bytes.len() < 12 {
        return true;
    }
    let length: u32 = number_at(bytes, 8);
    if length as usize > bytes.len() - 12 {
        return true;
    }
    let end: usize = 12 + length as usize;
    let text = vstd::slice::slice_subrange(bytes, 12, end);
    if !has_short_numbers(text) {
        return false;
    }
    if bytes.len() - end >= 12 {
        let count: u32 = number_at(bytes, end + 8);
        let start: usize = textures_end(bytes, end + 12, count);
        if !has_short_numbers(vstd::slice::slice_subrange(bytes, start, bytes.len())) {
            return false;
        }
    } else {
        assert(short_numbers(extras(bytes@)));
    }
    match parse_json(text) {
        Some(tree) => is_well_shaped(&tree),
        None => true,
    }
}

} // verus!
