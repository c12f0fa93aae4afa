use nbt_tree::{NbtCompound, NbtRepr, NbtReprError, NbtStructureError, NbtTag};

#[derive(Debug, PartialEq, Eq, Clone, Copy)]
struct Waypoint {
    x: i32,
    z: i32,
}

impl NbtRepr for Waypoint {
    type Error = NbtStructureError;

    fn from_nbt(nbt: &NbtCompound) -> Result<Self, Self::Error> {
        let x = match nbt.get("x") {
            Some(NbtTag::Int(v)) => *v,
            Some(_) => return Err(NbtStructureError::TypeMismatch),
            None => return Err(NbtStructureError::MissingTag),
        };
        let z = match nbt.get("z") {
            Some(NbtTag::Int(v)) => *v,
            Some(_) => return Err(NbtStructureError::TypeMismatch),
            None => return Err(NbtStructureError::MissingTag),
        };
        Ok(Waypoint { x, z })
    }

    fn write_nbt(&self, nbt: &mut NbtCompound) {
        nbt.insert("x".to_string(), NbtTag::Int(self.x));
        nbt.insert("z".to_string(), NbtTag::Int(self.z));
    }
}

#[test]
fn missing_key_is_missing_tag() {
    let mut nbt = NbtCompound::new();
    nbt.insert("x".to_string(), NbtTag::Int(3));
    assert_eq!(
        Waypoint::from_nbt(&nbt).unwrap_err(),
        NbtStructureError::MissingTag
    );
}

#[test]
fn wrong_variant_is_type_mismatch() {
    let mut nbt = NbtCompound::new();
    nbt.insert("x".to_string(), NbtTag::Int(3));
    nbt.insert("z".to_string(), NbtTag::String("not an int".to_string()));
    assert_eq!(
        Waypoint::from_nbt(&nbt).unwrap_err(),
        NbtStructureError::TypeMismatch
    );
}

#[test]
fn to_nbt_then_from_nbt_reconstructs() {
    let w = Waypoint { x: -12, z: 400 };
    let nbt = w.to_nbt();
    assert_eq!(Waypoint::from_nbt(&nbt).unwrap(), w);
}

#[test]
fn custom_error_wraps_and_unwraps() {
    let e: NbtReprError<u8> = NbtReprError::custom(7);
    assert_eq!(e, NbtReprError::Custom(7));

    let wrapped: NbtReprError<u8> = NbtReprError::from(NbtStructureError::InvalidIndex);
    assert_eq!(wrapped, NbtReprError::Structure(NbtStructureError::InvalidIndex));

    let back: NbtStructureError =
        NbtStructureError::from(NbtReprError::Structure(NbtStructureError::TypeMismatch));
    assert_eq!(back, NbtStructureError::TypeMismatch);
    let back2: NbtStructureError =
        NbtStructureError::from(NbtReprError::Custom(NbtStructureError::MissingTag));
    assert_eq!(back2, NbtStructureError::MissingTag);
}

#[test]
fn insert_overwrites_in_place() {
    let mut nbt = NbtCompound::new();
    nbt.insert("a".to_string(), NbtTag::Int(1));
    nbt.insert("b".to_string(), NbtTag::Int(2));
    nbt.insert("a".to_string(), NbtTag::Int(9));
    assert_eq!(nbt.len(), 2);
    match nbt.get("a") {
        Some(NbtTag::Int(v)) => assert_eq!(*v, 9),
        _ => panic!("expected an int"),
    }
    // the overwritten entry keeps its position
    let (first_name, _) = nbt.entry_at(0);
    assert_eq!(first_name, "a");
}
