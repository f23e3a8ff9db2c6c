use mjx_sml::address::CellReference;
use mjx_sml::arena::text::TextSpan;
use mjx_sml::cells::cell_type::CellType;
use mjx_sml::cells::record::{
    CellExtras, CellFlags, CellTypeCode, PackedCell, PackedRow, PayloadShape, NO_EXTRAS,
};

#[test]
fn the_packed_records_are_the_size_the_design_says_they_are() {
    assert_eq!(
        core::mem::size_of::<PackedCell>(),
        36,
        "a cell is 36 bytes: an 8-byte reference, two 8-byte spans, two 4-byte indices and \
         two bytes of discriminant"
    );
    assert_eq!(
        core::mem::size_of::<PackedRow>(),
        48,
        "a row is 48 bytes; there are at most 1,048,576 of them against a million times more \
         cells"
    );
    assert_eq!(core::mem::size_of::<CellExtras>(), 40);
    assert_eq!(
        core::mem::size_of::<CellReference>(),
        8,
        "this record's size depends on the reference's"
    );
}

#[test]
fn a_written_cell_type_and_an_absent_one_are_different_codes() {
    assert_eq!(CellTypeCode::cell_type(CellTypeCode::ABSENT), None);
    for cell_type in [
        CellType::Boolean,
        CellType::Number,
        CellType::Error,
        CellType::SharedString,
        CellType::FormulaString,
        CellType::InlineString,
    ] {
        let code = CellTypeCode::of(cell_type);
        assert_ne!(
            code,
            CellTypeCode::ABSENT,
            "{cell_type:?} must not share a code with `absent`"
        );
        assert_eq!(CellTypeCode::cell_type(code), Some(cell_type));
    }
    assert_ne!(CellTypeCode::of(CellType::Number), CellTypeCode::ABSENT);
}

#[test]
fn payload_shape_survives_the_bit_packing_it_shares_with_the_other_flags() {
    let mut cell = PackedCell {
        reference: CellReference::relative(0, 0).expect("A1"),
        extent: TextSpan::none(),
        payload: TextSpan::none(),
        style: 0,
        extra: NO_EXTRAS,
        kind: CellTypeCode::ABSENT,
        flags: CellFlags::HAS_REFERENCE | CellFlags::SELF_CLOSING,
    };
    assert_eq!(cell.payload_shape(), PayloadShape::Absent);
    for shape in [
        PayloadShape::ValueText,
        PayloadShape::InlineString,
        PayloadShape::Absent,
    ] {
        cell.set_payload_shape(shape);
        assert_eq!(cell.payload_shape(), shape);
        assert!(
            cell.has(CellFlags::HAS_REFERENCE) && cell.has(CellFlags::SELF_CLOSING),
            "setting the payload shape must not disturb the flags beside it"
        );
        assert!(!cell.has(CellFlags::HAS_STYLE));
    }
}

#[test]
fn the_wire_spelling_of_every_type_reads_back() {
    for (cell_type, wire) in [
        (CellType::Boolean, &b"b"[..]),
        (CellType::Number, &b"n"[..]),
        (CellType::Error, &b"e"[..]),
        (CellType::SharedString, &b"s"[..]),
        (CellType::FormulaString, &b"str"[..]),
        (CellType::InlineString, &b"inlineStr"[..]),
    ] {
        assert_eq!(cell_type.to_wire(), wire.to_vec());
        assert_eq!(CellType::from_wire(wire), Some(cell_type));
    }
    assert_eq!(CellType::from_wire(b"x"), None);
}

#[test]
fn a_written_type_is_the_code_the_cell_carries() {
    let cell = PackedCell {
        reference: CellReference::relative(1, 1).expect("B2"),
        extent: TextSpan::none(),
        payload: TextSpan::none(),
        style: 0,
        extra: NO_EXTRAS,
        kind: CellTypeCode::of(CellType::SharedString),
        flags: 0,
    };
    assert_eq!(cell.written_cell_type(), Some(CellType::SharedString));
}
