use noun::atom::Atom;
use noun::cell::Cell;
use noun::convert::{atoms_to_list, list_to_atoms, Error};
use noun::noun::Noun;
use std::rc::Rc;

fn nt(s: &str) -> Rc<Noun> {
    Rc::new(Atom::from_text(s).into_noun())
}

fn c2(h: Rc<Noun>, t: Rc<Noun>) -> Rc<Noun> {
    Rc::new(Cell::new(h, t).into_noun())
}

#[test]
fn convert() {
    // A list without a null terminator is rejected.
    {
        let noun = Cell::from_vec(vec![nt("no"), nt("null"), nt("terminator")]).into_noun();
        assert!(list_to_atoms(&noun).is_err());
    }

    // A list whose element is a cell is rejected.
    {
        let noun = Cell::new(
            c2(nt("unexpected"), nt("cell")),
            Rc::new(Noun::null()),
        ).into_noun();
        assert!(list_to_atoms(&noun).is_err());
    }

    // Strings convert into a null-terminated list of atoms.
    {
        let strings = ["a", "b", "c"];
        let elems: Vec<Atom> = strings.iter().map(|s| Atom::from_text(s)).collect();
        let noun = atoms_to_list(elems);
        let expected = Cell::from_vec(vec![
            nt("a"),
            nt("b"),
            nt("c"),
            Rc::new(Noun::null()),
        ]).into_noun();
        assert_eq!(noun, expected);
    }
}

#[test]
fn convert_errors_are_named() {
    {
        let noun = Cell::from_vec(vec![nt("no"), nt("null"), nt("terminator")]).into_noun();
        assert_eq!(list_to_atoms(&noun), Err(Error::ExpectedNull));
    }

    {
        let noun = Cell::new(c2(nt("k"), nt("v")), Rc::new(Noun::null())).into_noun();
        assert_eq!(list_to_atoms(&noun), Err(Error::UnexpectedCell));
    }

    {
        let noun = Noun::null();
        assert_eq!(noun.as_cell().unwrap_err(), Error::UnexpectedAtom);
        assert_eq!(
            noun.as_cell().unwrap_err().message(),
            "an atom was encountered when a cell was expected"
        );
    }

    {
        let noun = c2(nt("a"), nt("b"));
        assert_eq!((*noun).as_atom().unwrap_err(), Error::UnexpectedCell);
        assert_eq!(
            (*noun).as_atom().unwrap_err().message(),
            "a cell was encountered when an atom was expected"
        );
    }
}

#[test]
fn empty_list_roundtrip() {
    let noun = atoms_to_list(Vec::new());
    assert!(noun.is_null());
    let back = list_to_atoms(&noun).unwrap();
    assert!(back.is_empty());

    let elems = vec![Atom::from_u8(5), Atom::from_u16(300), Atom::null()];
    let noun = atoms_to_list(elems);
    let back = list_to_atoms(&noun).unwrap();
    assert_eq!(back.len(), 3);
    assert_eq!(back[0].as_u8().unwrap(), 5);
    assert_eq!(back[1].as_u16().unwrap(), 300);
    assert!(back[2].is_null());
}
