use async_dispatcher::minimum::{Read, Write};
use async_dispatcher::{RequiredResources, RequiresResources, ResourceId};

struct A;
struct B;
struct C;
struct D;

#[test]
fn resource_ids_follow_types() {
    assert_eq!(ResourceId::new::<A>(), ResourceId::new::<A>());
    assert_ne!(ResourceId::new::<A>(), ResourceId::new::<B>());
}

#[test]
fn unit_requires_nothing() {
    assert!(<() as RequiresResources>::reads().is_empty());
    assert!(<() as RequiresResources>::writes().is_empty());
}

#[test]
fn read_names_one_read() {
    assert_eq!(<Read<A> as RequiresResources>::reads(), vec![ResourceId::new::<A>()]);
    assert!(<Read<A> as RequiresResources>::writes().is_empty());
}

#[test]
fn write_names_one_write() {
    assert!(<Write<B> as RequiresResources>::reads().is_empty());
    assert_eq!(<Write<B> as RequiresResources>::writes(), vec![ResourceId::new::<B>()]);
}

#[test]
fn single_tuple_is_its_member() {
    assert_eq!(<(Read<A>,) as RequiresResources>::reads(), vec![ResourceId::new::<A>()]);
    assert!(<(Read<A>,) as RequiresResources>::writes().is_empty());
}

#[test]
fn pair_concatenates_in_order() {
    type Pair = (Read<A>, Write<B>);
    assert_eq!(<Pair as RequiresResources>::reads(), vec![ResourceId::new::<A>()]);
    assert_eq!(<Pair as RequiresResources>::writes(), vec![ResourceId::new::<B>()]);
}

#[test]
fn triple_concatenates_in_order() {
    type Triple = (Read<B>, Read<A>, Write<C>);
    assert_eq!(
        <Triple as RequiresResources>::reads(),
        vec![ResourceId::new::<B>(), ResourceId::new::<A>()]
    );
    assert_eq!(<Triple as RequiresResources>::writes(), vec![ResourceId::new::<C>()]);
}

#[test]
fn quadruple_concatenates_in_order() {
    type Quad = (Write<D>, Read<A>, Write<C>, Read<B>);
    assert_eq!(
        <Quad as RequiresResources>::reads(),
        vec![ResourceId::new::<A>(), ResourceId::new::<B>()]
    );
    assert_eq!(
        <Quad as RequiresResources>::writes(),
        vec![ResourceId::new::<D>(), ResourceId::new::<C>()]
    );
}

#[test]
fn nested_tuples_flatten() {
    type Nested = ((Read<A>, Write<B>), (Read<C>,));
    assert_eq!(
        <Nested as RequiresResources>::reads(),
        vec![ResourceId::new::<A>(), ResourceId::new::<C>()]
    );
    assert_eq!(<Nested as RequiresResources>::writes(), vec![ResourceId::new::<B>()]);
}

#[test]
fn required_resources_carries_reads_and_writes() {
    type Pair = (Read<A>, Write<B>);
    let rr: RequiredResources<Pair> = <Pair as RequiresResources>::required_resources();
    assert_eq!(rr.reads(), &vec![ResourceId::new::<A>()]);
    assert_eq!(rr.writes(), &vec![ResourceId::new::<B>()]);
}

#[test]
fn required_resources_new_keeps_lists() {
    let reads = vec![ResourceId::new::<A>(), ResourceId::new::<B>()];
    let writes = vec![ResourceId::new::<C>()];
    let rr: RequiredResources<()> = RequiredResources::new(reads.clone(), writes.clone());
    assert_eq!(rr.reads(), &reads);
    assert_eq!(rr.writes(), &writes);
}
