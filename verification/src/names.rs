use vstd::prelude::*;

verus! {

// The dictionary keys and type names the engine reads and writes, as byte
// strings: each has a spec form and an executable builder proved against it.

pub open spec fn key_type() -> Seq<u8> {
    seq![84u8, 121u8, 112u8, 101u8]
}

pub open spec fn key_parent() -> Seq<u8> {
    seq![80u8, 97u8, 114u8, 101u8, 110u8, 116u8]
}

pub open spec fn key_kids() -> Seq<u8> {
    seq![75u8, 105u8, 100u8, 115u8]
}

pub open spec fn key_count() -> Seq<u8> {
    seq![67u8, 111u8, 117u8, 110u8, 116u8]
}

pub open spec fn key_root() -> Seq<u8> {
    seq![82u8, 111u8, 111u8, 116u8]
}

pub open spec fn key_size() -> Seq<u8> {
    seq![83u8, 105u8, 122u8, 101u8]
}

pub open spec fn key_rotate() -> Seq<u8> {
    seq![82u8, 111u8, 116u8, 97u8, 116u8, 101u8]
}

pub open spec fn name_pages() -> Seq<u8> {
    seq![80u8, 97u8, 103u8, 101u8, 115u8]
}

pub open spec fn name_page() -> Seq<u8> {
    seq![80u8, 97u8, 103u8, 101u8]
}

pub open spec fn name_catalog() -> Seq<u8> {
    seq![67u8, 97u8, 116u8, 97u8, 108u8, 111u8, 103u8]
}

pub fn k_type() -> (v: Vec<u8>)
    ensures
        v@ == key_type(),
{
    let mut v: Vec<u8> = Vec::new();
    v.push(84u8);
    v.push(121u8);
    v.push(112u8);
    v.push(101u8);
    proof {
        assert(v@ =~= key_type());
    }
    v
}

pub fn k_parent() -> (v: Vec<u8>)
    ensures
        v@ == key_parent(),
{
    let mut v: Vec<u8> = Vec::new();
    v.push(80u8);
    v.push(97u8);
    v.push(114u8);
    v.push(101u8);
    v.push(110u8);
    v.push(116u8);
    proof {
        assert(v@ =~= key_parent());
    }
    v
}

pub fn k_kids() -> (v: Vec<u8>)
    ensures
        v@ == key_kids(),
{
    let mut v: Vec<u8> = Vec::new();
    v.push(75u8);
    v.push(105u8);
    v.push(100u8);
    v.push(115u8);
    proof {
        assert(v@ =~= key_kids());
    }
    v
}

pub fn k_count() -> (v: Vec<u8>)
    ensures
        v@ == key_count(),
{
    let mut v: Vec<u8> = Vec::new();
    v.push(67u8);
    v.push(111u8);
    v.push(117u8);
    v.push(110u8);
    v.push(116u8);
    proof {
        assert(v@ =~= key_count());
    }
    v
}

pub fn k_root() -> (v: Vec<u8>)
    ensures
        v@ == key_root(),
{
    let mut v: Vec<u8> = Vec::new();
    v.push(82u8);
    v.push(111u8);
    v.push(111u8);
    v.push(116u8);
    proof {
        assert(v@ =~= key_root());
    }
    v
}

pub fn k_size() -> (v: Vec<u8>)
    ensures
        v@ == key_size(),
{
    let mut v: Vec<u8> = Vec::new();
    v.push(83u8);
    v.push(105u8);
    v.push(122u8);
    v.push(101u8);
    proof {
        assert(v@ =~= key_size());
    }
    v
}

pub fn k_rotate() -> (v: Vec<u8>)
    ensures
        v@ == key_rotate(),
{
    let mut v: Vec<u8> = Vec::new();
    v.push(82u8);
    v.push(111u8);
    v.push(116u8);
    v.push(97u8);
    v.push(116u8);
    v.push(101u8);
    proof {
        assert(v@ =~= key_rotate());
    }
    v
}

pub fn n_pages() -> (v: Vec<u8>)
    ensures
        v@ == name_pages(),
{
    let mut v: Vec<u8> = Vec::new();
    v.push(80u8);
    v.push(97u8);
    v.push(103u8);
    v.push(101u8);
    v.push(115u8);
    proof {
        assert(v@ =~= name_pages());
    }
    v
}

pub fn n_page() -> (v: Vec<u8>)
    ensures
        v@ == name_page(),
{
    let mut v: Vec<u8> = Vec::new();
    v.push(80u8);
    v.push(97u8);
    v.push(103u8);
    v.push(101u8);
    proof {
        assert(v@ =~= name_page());
    }
    v
}

pub fn n_catalog() -> (v: Vec<u8>)
    ensures
        v@ == name_catalog(),
{
    let mut v: Vec<u8> = Vec::new();
    v.push(67u8);
    v.push(97u8);
    v.push(116u8);
    v.push(97u8);
    v.push(108u8);
    v.push(111u8);
    v.push(103u8);
    proof {
        assert(v@ =~= name_catalog());
    }
    v
}

} // verus!
