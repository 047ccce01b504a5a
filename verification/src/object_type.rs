use vstd::prelude::*;
use vstd::string::*;
use vstd::utf8::*;

verus! {

#[derive(Copy, Clone, Debug, PartialEq, Eq, Structural)]
pub enum ObjectType {
    Blob,
    Tree,
    Commit,
    Tag,
}

/// The name that object headers give each type.
pub open spec fn object_type_name(t: ObjectType) -> Seq<u8> {
    match t {
        ObjectType::Blob => seq![98u8, 108, 111, 98],
        ObjectType::Tree => seq![116u8, 114, 101, 101],
        ObjectType::Commit => seq![99u8, 111, 109, 109, 105, 116],
        ObjectType::Tag => seq![116u8, 97, 103],
    }
}

pub proof fn lemma_object_type_name_injective(a: ObjectType, b: ObjectType)
    ensures
        object_type_name(a) == object_type_name(b) ==> a == b,
{
    if object_type_name(a) == object_type_name(b) && a != b {
        assert(object_type_name(a).len() == object_type_name(b).len());
        assert(object_type_name(a)[0] == object_type_name(b)[0]);
        assert(object_type_name(a)[1] == object_type_name(b)[1]);
    }
}

impl ObjectType {
    pub fn as_bytes(&self) -> (r: &'static [u8])
        ensures
            r@ == object_type_name(*self),
    {
        let r: &'static [u8] = match self {
            ObjectType::Blob => &[98u8, 108, 111, 98],
            ObjectType::Tree => &[116u8, 114, 101, 101],
            ObjectType::Commit => &[99u8, 111, 109, 109, 105, 116],
            ObjectType::Tag => &[116u8, 97, 103],
        };
        assert(r@ =~= object_type_name(*self));
        r
    }

    /// The type whose name is `bytes`.
    pub fn from(bytes: &[u8]) -> (r: Option<ObjectType>)
        ensures
            match r {
                Some(t) => object_type_name(t) == bytes@,
                None => forall|t: ObjectType| object_type_name(t) != bytes@,
            },
    {
        let cands = [ObjectType::Blob, ObjectType::Tree, ObjectType::Commit, ObjectType::Tag];
        let mut i: usize = 0;
        while i < 4
            invariant
                i <= 4,
                cands@ == seq![ObjectType::Blob, ObjectType::Tree, ObjectType::Commit, ObjectType::Tag],
                forall|j: int| 0 <= j < i ==> object_type_name(cands@[j]) != bytes@,
            decreases 4 - i,
        {
            let name = cands[i].as_bytes();
            if crate::bytes::bytes_eq(name, bytes) {
                return Some(cands[i]);
            }
            i = i + 1;
        }
        assert forall|t: ObjectType| object_type_name(t) != bytes@ by {
            match t {
                ObjectType::Blob => assert(object_type_name(cands@[0]) != bytes@),
                ObjectType::Tree => assert(object_type_name(cands@[1]) != bytes@),
                ObjectType::Commit => assert(object_type_name(cands@[2]) != bytes@),
                ObjectType::Tag => assert(object_type_name(cands@[3]) != bytes@),
            }
        }
        None
    }

    /// The name, as its `Display` writes it: the text whose bytes `as_bytes` gives.
    pub fn as_str(&self) -> (r: &'static str)
        ensures
            match *self {
                ObjectType::Blob => r@ == "blob"@,
                ObjectType::Tree => r@ == "tree"@,
                ObjectType::Commit => r@ == "commit"@,
                ObjectType::Tag => r@ == "tag"@,
            },
            r.spec_bytes() == object_type_name(*self),
    {
        let r = match self {
            ObjectType::Blob => "blob",
            ObjectType::Tree => "tree",
            ObjectType::Commit => "commit",
            ObjectType::Tag => "tag",
        };
        proof {
            reveal_strlit("blob");
            reveal_strlit("tree");
            reveal_strlit("commit");
            reveal_strlit("tag");
            assert(is_ascii_chars(r@));
            vstd::utf8::is_ascii_chars_encode_utf8(r@);
            assert(r.spec_bytes() =~= object_type_name(*self));
        }
        r
    }
}

} // verus!
