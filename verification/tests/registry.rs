use axns::{Layout, NsError, Registry, ResWrapper, Resource};

fn bytes(n: usize, fill: u8) -> Vec<u8> {
    vec![fill; n]
}

#[test]
fn registry_starts_empty_and_open() {
    let registry = Registry::new();
    assert_eq!(registry.len(), 0);
    assert!(!registry.is_frozen());
}

#[test]
fn indices_are_dense_and_unique() {
    let mut registry = Registry::new();
    let sizes = [8usize, 1, 64, 8, 3, 4096];
    for (i, size) in sizes.iter().enumerate() {
        let layout = Layout::from_size_align(*size, 1).unwrap();
        assert_eq!(registry.register(layout, bytes(*size, i as u8)), Ok(i));
        assert_eq!(registry.len(), i + 1);
    }
    let mut seen = vec![false; sizes.len()];
    for i in 0..registry.len() {
        let res = registry.get(i);
        assert_eq!(res.index(), i);
        assert!(res.index() < registry.len());
        assert!(!seen[res.index()]);
        seen[res.index()] = true;
    }
    assert!(seen.iter().all(|s| *s));
}

#[test]
fn descriptor_keeps_what_was_registered() {
    let mut registry = Registry::new();
    registry.register(Layout::new::<u32>(), vec![1, 2, 3, 4]).unwrap();
    registry.register(Layout::from_size_align(3, 2).unwrap(), vec![9, 8, 7]).unwrap();
    let first = registry.get(0);
    assert_eq!(first.layout().size(), 4);
    assert_eq!(first.layout().align(), std::mem::align_of::<u32>());
    assert_eq!(first.init(), &vec![1, 2, 3, 4]);
    let second = registry.get(1);
    assert_eq!(second.layout().size(), 3);
    assert_eq!(second.layout().align(), 2);
    assert_eq!(second.init(), &vec![9, 8, 7]);
    assert_eq!(second.index(), 1);
}

#[test]
fn later_registration_leaves_earlier_indices() {
    let mut registry = Registry::new();
    registry.register(Layout::new::<u8>(), vec![7]).unwrap();
    registry.register(Layout::new::<u16>(), vec![1, 2]).unwrap();
    assert_eq!(registry.get(0).index(), 0);
    assert_eq!(registry.get(0).init(), &vec![7]);
    registry.register(Layout::new::<u8>(), vec![5]).unwrap();
    assert_eq!(registry.get(0).index(), 0);
    assert_eq!(registry.get(0).init(), &vec![7]);
    assert_eq!(registry.get(1).index(), 1);
    assert_eq!(registry.get(2).index(), 2);
}

#[test]
fn zero_sized_resource_is_refused() {
    let mut registry = Registry::new();
    registry.register(Layout::new::<u8>(), vec![0]).unwrap();
    let r = registry.register(Layout::new::<()>(), Vec::new());
    assert_eq!(r, Err(NsError::ZeroSizedResource));
    assert_eq!(registry.len(), 1);
    assert!(!registry.is_frozen());
    assert_eq!(registry.register(Layout::new::<u8>(), vec![0]), Ok(1));
}

#[test]
fn registration_after_freeze_is_refused() {
    let mut registry = Registry::new();
    assert_eq!(registry.register(Layout::new::<u8>(), vec![0]), Ok(0));
    registry.freeze();
    assert!(registry.is_frozen());
    assert_eq!(registry.len(), 1);
    let r = registry.register(Layout::new::<u8>(), vec![0]);
    assert_eq!(r, Err(NsError::RegistrationAfterFreeze));
    assert_eq!(registry.len(), 1);
    assert!(registry.is_frozen());
}

#[test]
fn zero_size_is_reported_before_the_freeze() {
    let mut registry = Registry::new();
    registry.freeze();
    let r = registry.register(Layout::from_size_align(0, 8).unwrap(), Vec::new());
    assert_eq!(r, Err(NsError::ZeroSizedResource));
}

#[test]
fn freeze_keeps_the_descriptors() {
    let mut registry = Registry::new();
    registry.register(Layout::new::<u16>(), vec![3, 4]).unwrap();
    registry.freeze();
    registry.freeze();
    assert_eq!(registry.len(), 1);
    assert_eq!(registry.get(0).init(), &vec![3, 4]);
}

#[test]
fn typed_accessor_reaches_its_descriptor() {
    let mut registry = Registry::new();
    registry.register(Layout::new::<u64>(), vec![0; 8]).unwrap();
    registry.register(Layout::new::<u8>(), vec![1]).unwrap();
    registry.freeze();
    let registry: &'static Registry = Box::leak(Box::new(registry));
    let second: &'static Resource = registry.get(1);
    let accessor: ResWrapper<u8> = ResWrapper::new(second);
    assert_eq!(accessor.res().index(), 1);
    assert_eq!(accessor.res().init(), &vec![1]);
    let copy = accessor;
    let clone = accessor.clone();
    assert_eq!(copy.res().index(), 1);
    assert_eq!(clone.res().index(), 1);
    assert_eq!(std::mem::size_of::<ResWrapper<u8>>(), std::mem::size_of::<usize>());
}

#[test]
fn every_failure_has_its_words() {
    assert_eq!(NsError::AllocationFailure.message(), "memory allocation failed");
    assert_eq!(NsError::CounterOverflow.message(), "ResArc counter overflow");
    assert_eq!(NsError::ZeroSizedResource.message(), "Resource has zero size");
    assert_eq!(
        NsError::RegistrationAfterFreeze.message(),
        "Resource registered after the registry was frozen"
    );
}
