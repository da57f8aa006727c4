use sparse_ecs::{Downgrade, Global, GlobalMut, IntoSystemDyn, Res};

#[test]
fn downgrade_keeps_the_values() {
    let mut a = 1u8;
    let mut b = 'b';
    let mut c = "c";
    let (x,) = (&mut a,).downgrade();
    assert_eq!(*x, 1);
    let (x, y) = (&mut a, &mut b).downgrade();
    assert_eq!((*x, *y), (1, 'b'));
    let (x, y, z) = (&mut a, &mut b, &mut c).downgrade();
    assert_eq!((*x, *y, *z), (1, 'b', "c"));
}

#[test]
fn system_wrappers_keep_the_function() {
    let mut calls = 0;
    {
        let mut wrapped = IntoSystemDyn::<()>::into_dyn(|| calls += 1);
        (wrapped.function_mut())();
        (wrapped.function_mut())();
    }
    assert_eq!(calls, 2);
}

#[test]
fn resource_parameters_wrap_references() {
    let mut v = 3u32;
    {
        let g = GlobalMut { inner: &mut v };
        *g.inner += 1;
    }
    let r = Global { inner: &v };
    assert_eq!(*r.inner, 4);
    let name: Res<u32> = Res::new();
    let copy = name;
    let _ = (name, copy);
}
