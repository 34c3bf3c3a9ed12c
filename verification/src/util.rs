use vstd::prelude::*;

verus! {

/// Element-wise copy of a vector of copyable values.
pub fn copy_vec<T: Copy>(v: &Vec<T>) -> (r: Vec<T>)
    ensures
        r@ == v@,
{
    let mut r: Vec<T> = Vec::new();
    let n = v.len();
    let mut i: usize = 0;
    while i < n
        invariant
            n == v@.len(),
            i <= n,
            r@ =~= v@.subrange(0, i as int),
        decreases n - i,
    {
        r.push(v[i]);
        proof {
            assert(r@ =~= v@.subrange(0, i as int + 1));
        }
        i += 1;
    }
    proof {
        assert(r@ =~= v@);
    }
    r
}

/// Relies on Rc::clone: the returned handle refers to the same shared
/// value, so the two are equal.
#[verifier::external_body]
pub fn rc_dup<T>(v: &std::rc::Rc<T>) -> (r: std::rc::Rc<T>)
    ensures
        r == *v,
{
    std::rc::Rc::clone(v)
}

} // verus!
