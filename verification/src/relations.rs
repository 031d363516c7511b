//! The closed taxonomy of relation kinds between two objects, and the
//! execution tier each kind belongs to.

use vstd::prelude::*;

verus! {

/// The twelve relation kinds the miner can derive between two objects.
#[allow(non_camel_case_types)]
#[derive(Debug, PartialEq, Eq, Structural, Hash, Copy, Clone)]
pub enum Relations {
    INTERACTS,
    COLIFE,
    COBIRTH,
    CODEATH,
    DESCENDANTS,
    INHERITANCE,
    CONSUMES,
    SPLIT,
    MERGE,
    MINION,
    PEELER,
    ENGAGES,
}

impl Relations {
    /// Execution tier of a relation kind: 1 (primitive, evaluated inline
    /// while the log is ingested), 2 (instance, evaluated on an adjacent
    /// object pair with frozen lifelines), or 3 (whole, evaluated on an
    /// object's full outgoing neighborhood).
    pub fn relation_type(&self) -> (t: u8)
        ensures
            t == self.tier(),
    {
        match self {
            Relations::INTERACTS => 1,
            Relations::DESCENDANTS => 1,
            Relations::SPLIT => 3,
            _ => 2,
        }
    }

    /// The tier as a specification-level value.
    pub open spec fn tier(&self) -> u8 {
        match self {
            Relations::INTERACTS => 1,
            Relations::DESCENDANTS => 1,
            Relations::SPLIT => 3,
            _ => 2,
        }
    }

    /// Stable small-integer index of a relation kind, used to key layered
    /// evidence indices and interchange formats.
    pub fn relation_index(&self) -> (i: u8)
        ensures
            i == self.index_spec(),
    {
        match self {
            Relations::INTERACTS => 0,
            Relations::COLIFE => 1,
            Relations::COBIRTH => 2,
            Relations::CODEATH => 3,
            Relations::DESCENDANTS => 4,
            Relations::INHERITANCE => 5,
            Relations::CONSUMES => 6,
            Relations::SPLIT => 7,
            Relations::MERGE => 8,
            Relations::MINION => 9,
            Relations::PEELER => 10,
            Relations::ENGAGES => 11,
        }
    }

    /// The index as a specification-level value.
    pub open spec fn index_spec(&self) -> u8 {
        match self {
            Relations::INTERACTS => 0,
            Relations::COLIFE => 1,
            Relations::COBIRTH => 2,
            Relations::CODEATH => 3,
            Relations::DESCENDANTS => 4,
            Relations::INHERITANCE => 5,
            Relations::CONSUMES => 6,
            Relations::SPLIT => 7,
            Relations::MERGE => 8,
            Relations::MINION => 9,
            Relations::PEELER => 10,
            Relations::ENGAGES => 11,
        }
    }

    /// The canonical name of a relation kind, as a character sequence.
    pub open spec fn name_spec(&self) -> Seq<char> {
        match self {
            Relations::INTERACTS => "INTERACTS"@,
            Relations::COLIFE => "COLIFE"@,
            Relations::COBIRTH => "COBIRTH"@,
            Relations::CODEATH => "CODEATH"@,
            Relations::DESCENDANTS => "DESCENDANTS"@,
            Relations::INHERITANCE => "INHERITANCE"@,
            Relations::CONSUMES => "CONSUMES"@,
            Relations::SPLIT => "SPLIT"@,
            Relations::MERGE => "MERGE"@,
            Relations::MINION => "MINION"@,
            Relations::PEELER => "PEELER"@,
            Relations::ENGAGES => "ENGAGES"@,
        }
    }

    /// The canonical name of a relation kind.
    pub fn name_string(&self) -> (r: String)
        ensures
            r@ == self.name_spec(),
    {
        match self {
            Relations::INTERACTS => "INTERACTS".to_owned(),
            Relations::COLIFE => "COLIFE".to_owned(),
            Relations::COBIRTH => "COBIRTH".to_owned(),
            Relations::CODEATH => "CODEATH".to_owned(),
            Relations::DESCENDANTS => "DESCENDANTS".to_owned(),
            Relations::INHERITANCE => "INHERITANCE".to_owned(),
            Relations::CONSUMES => "CONSUMES".to_owned(),
            Relations::SPLIT => "SPLIT".to_owned(),
            Relations::MERGE => "MERGE".to_owned(),
            Relations::MINION => "MINION".to_owned(),
            Relations::PEELER => "PEELER".to_owned(),
            Relations::ENGAGES => "ENGAGES".to_owned(),
        }
    }

    /// Parses a relation kind from its canonical name; every other string
    /// is rejected.
    pub fn parse_name(feature: &str) -> (r: Result<Relations, ()>)
        ensures
            r matches Ok(k) ==> feature@ == k.name_spec(),
            r is Err ==> forall|k: Relations| feature@ != k.name_spec(),
    {
        let n = feature.to_owned();
        if n == "INTERACTS".to_owned() {
            Ok(Relations::INTERACTS)
        } else if n == "COLIFE".to_owned() {
            Ok(Relations::COLIFE)
        } else if n == "COBIRTH".to_owned() {
            Ok(Relations::COBIRTH)
        } else if n == "CODEATH".to_owned() {
            Ok(Relations::CODEATH)
        } else if n == "DESCENDANTS".to_owned() {
            Ok(Relations::DESCENDANTS)
        } else if n == "INHERITANCE".to_owned() {
            Ok(Relations::INHERITANCE)
        } else if n == "CONSUMES".to_owned() {
            Ok(Relations::CONSUMES)
        } else if n == "SPLIT".to_owned() {
            Ok(Relations::SPLIT)
        } else if n == "MERGE".to_owned() {
            Ok(Relations::MERGE)
        } else if n == "MINION".to_owned() {
            Ok(Relations::MINION)
        } else if n == "PEELER".to_owned() {
            Ok(Relations::PEELER)
        } else if n == "ENGAGES".to_owned() {
            Ok(Relations::ENGAGES)
        } else {
            proof {
                assert forall|k: Relations| feature@ != k.name_spec() by {}
            }
            Err(())
        }
    }
}

impl core::str::FromStr for Relations {
    type Err = ();

    /// Parses a relation kind from its canonical name.
    fn from_str(feature: &str) -> Result<Relations, ()> {
        Relations::parse_name(feature)
    }
}

} // verus!
