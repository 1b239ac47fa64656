//! Loader of the authoring formats.

use inochi2d_parser::inr::convert_puppet;
use inochi2d_parser::inr::InrDoc as FileDoc;
use inochi2d_parser::owned::Puppet;
use vstd::prelude::*;

use crate::file_doc;
use crate::file_doc::document;
use crate::inr::{InrError, InrModel};
use crate::shapes;
use crate::shapes::is_presentable;

verus! {

/// The bytes `TRNSRTS` and a zero, at the start of an authored puppet.
pub open spec fn authored_magic() -> Seq<u8> {
    seq![0x54u8, 0x52u8, 0x4eu8, 0x53u8, 0x52u8, 0x54u8, 0x53u8, 0u8]
}

/// The INR documents and blobs that an authored puppet is turned into. A puppet
/// that cannot be read has none. Machines may differ in the byte order of the
/// blob and in powers and sines, on which numbers with an exponent and the hints
/// about overlaps rest, so there can be more than one.
pub uninterp spec fn authored(bytes: Seq<u8>) -> Set<(FileDoc, Seq<u8>)>;

/// `Puppet::from_bytes` and then `convert_puppet` of `inochi2d_parser`. A file
/// that does not start with the magic is refused. Whether others are depends on
/// the bytes alone, and so does what a machine makes of them. What the text of an
/// error says is left open. The tables, axes and meshes in the file have to be
/// shaped, since they are indexed without a test.
#[verifier::external_body]
fn parse_authored(bytes: &[u8]) -> (r: Result<(FileDoc, Vec<u8>), String>)
    requires
        shapes::presentable(bytes@),
    ensures
        match r {
            Ok((doc, bin)) => authored(bytes@).contains((doc, bin@)),
            Err(_) => authored(bytes@) == Set::<(FileDoc, Seq<u8>)>::empty(),
        },
        r is Ok ==> authored_magic().is_prefix_of(bytes@),
{
    let puppet = Puppet::from_bytes(bytes).map_err(|e| e.to_string())?;
    convert_puppet(&puppet).map_err(|e| e.to_string())
}

/// Loader of `.inx` and `.inp` files. They are turned into an INR document in
/// memory and then take the way of an `.inr` file.
pub struct InxLoader;

impl InxLoader {
    /// Reads an authored puppet. One whose tables or meshes are not shaped is
    /// refused without being read.
    pub fn load(&self, bytes: &[u8]) -> (r: Result<InrModel, InrError>)
        ensures
            r matches Err(e) ==> e is Authored,
            r is Ok <==> shapes::presentable(bytes@) && authored(bytes@) != Set::<
                (FileDoc, Seq<u8>),
            >::empty(),
            r matches Ok(model) ==> exists|made: (FileDoc, Seq<u8>)| #[trigger]
                authored(bytes@).contains(made) && file_doc::document_is(made.0, model.doc)
                    && model.bin@ == made.1,
            r is Ok ==> authored_magic().is_prefix_of(bytes@),
    {
        if !is_presentable(bytes) {
            return Err(InrError::Authored("a table or a mesh has no shape".to_owned()));
        }
        match parse_authored(bytes) {
            Err(message) => Err(InrError::Authored(message)),
            Ok((doc, bin)) => {
                assert(authored(bytes@).contains((doc, bin@)));
                Ok(InrModel { doc: document(&doc), bin })
            },
        }
    }

    /// The file extensions of the loader.
    pub fn extensions(&self) -> (r: [&'static str; 2])
        ensures
            r[0]@ == "inx"@,
            r[1]@ == "inp"@,
    {
        ["inx", "inp"]
    }
}

} // verus!
