use vstd::prelude::*;
use crate::format::{ANKERMAKE_FILAMENT_USED_M, ANKERMAKE_FLAVOUR, ANKERMAKE_PRINTING_TIME};

verus! {

/// Key of the source line that holds the estimated print time.
pub const PRUSA_ESTIMATED_PRINTING_TIME: &'static str = "estimated printing time";

/// Key of the source line that holds the filament length, in millimetres.
pub const PRUSA_FILAMENT_USED_MM: &'static str = "filament used [mm]";

/// How a field's raw value is turned into the target form.
#[derive(Clone, Copy, Debug, PartialEq, Eq, Structural)]
pub enum Transform {
    /// `1h 30m 0s` becomes whole seconds.
    Duration,
    /// `2500.00` millimetres becomes metres.
    Length,
}

/// One entry of the catalog: a line that is always written, or a source line
/// to look for and the target key under which its value is written.
#[derive(Clone, Copy, Debug)]
pub enum MetadataProperty {
    /// A line written as it is.
    Constant {
        /// The target key.
        name: &'static str,
        /// The value.
        value: &'static str,
    },
    /// A value taken from a source line.
    Field {
        /// The key the source line starts with.
        prusa: &'static str,
        /// The target key.
        anker: &'static str,
        /// How the value is converted; `None` keeps the text as it is.
        translate_fn: Option<Transform>,
    },
}

impl MetadataProperty {
    /// The key this entry writes under.
    pub open spec fn output_key(self) -> Seq<char> {
        match self {
            MetadataProperty::Constant { name, .. } => name@,
            MetadataProperty::Field { anker, .. } => anker@,
        }
    }

    /// The key this entry writes under.
    pub fn output_key_str(&self) -> (r: &'static str)
        ensures
            r@ == self.output_key(),
    {
        match self {
            MetadataProperty::Constant { name, .. } => name,
            MetadataProperty::Field { anker, .. } => anker,
        }
    }
}

/// No two entries write under the same key.
pub open spec fn keys_distinct(cat: Seq<MetadataProperty>) -> bool {
    forall|i: int, j: int|
        0 <= i < j < cat.len() ==> #[trigger] cat[i].output_key() != #[trigger] cat[j].output_key()
}

/// Whether two strings hold the same characters.
pub fn same_text(a: &str, b: &str) -> (r: bool)
    ensures
        r == (a@ == b@),
{
    let n = a.unicode_len();
    if n != b.unicode_len() {
        return false;
    }
    let mut i: usize = 0;
    while i < n
        invariant
            n == a@.len() == b@.len(),
            i <= n,
            a@.take(i as int) == b@.take(i as int),
        decreases n - i,
    {
        if a.get_char(i) != b.get_char(i) {
            return false;
        }
        assert(a@.take(i + 1) =~= a@.take(i as int).push(a@[i as int]));
        assert(b@.take(i + 1) =~= b@.take(i as int).push(b@[i as int]));
        i = i + 1;
    }
    assert(a@ =~= a@.take(n as int));
    assert(b@ =~= b@.take(n as int));
    true
}

/// Checks that no two entries of the catalog write under the same key.
pub fn has_unique_keys(cat: &Vec<MetadataProperty>) -> (r: bool)
    ensures
        r == keys_distinct(cat@),
{
    let n = cat.len();
    let mut i: usize = 0;
    while i < n
        invariant
            n == cat@.len(),
            i <= n,
            forall|a: int, b: int|
                0 <= a < i && a < b < n ==> #[trigger] cat@[a].output_key() != #[trigger] cat@[b].output_key(),
        decreases n - i,
    {
        let mut j: usize = i + 1;
        while j < n
            invariant
                n == cat@.len(),
                i < n,
                i < j <= n,
                forall|a: int, b: int|
                    0 <= a < i && a < b < n ==> #[trigger] cat@[a].output_key() != #[trigger] cat@[b].output_key(),
                forall|b: int| i < b < j ==> cat@[i as int].output_key() != #[trigger] cat@[b].output_key(),
            decreases n - j,
        {
            if same_text(cat[i].output_key_str(), cat[j].output_key_str()) {
                return false;
            }
            j = j + 1;
        }
        i = i + 1;
    }
    true
}

/// The catalog: the flavour line, then the print time and the filament length.
pub open spec fn catalog_spec() -> Seq<MetadataProperty> {
    seq![
        MetadataProperty::Constant { name: ANKERMAKE_FLAVOUR, value: "Marlin" },
        MetadataProperty::Field {
            prusa: PRUSA_ESTIMATED_PRINTING_TIME,
            anker: ANKERMAKE_PRINTING_TIME,
            translate_fn: Some(Transform::Duration),
        },
        MetadataProperty::Field {
            prusa: PRUSA_FILAMENT_USED_MM,
            anker: ANKERMAKE_FILAMENT_USED_M,
            translate_fn: Some(Transform::Length),
        },
    ]
}

/// The catalog of properties written into the header, in order.
pub fn metadata_properties() -> (r: Vec<MetadataProperty>)
    ensures
        r@ == catalog_spec(),
        keys_distinct(r@),
{
    let r = vec![
        MetadataProperty::Constant { name: ANKERMAKE_FLAVOUR, value: "Marlin" },
        MetadataProperty::Field {
            prusa: PRUSA_ESTIMATED_PRINTING_TIME,
            anker: ANKERMAKE_PRINTING_TIME,
            translate_fn: Some(Transform::Duration),
        },
        MetadataProperty::Field {
            prusa: PRUSA_FILAMENT_USED_MM,
            anker: ANKERMAKE_FILAMENT_USED_M,
            translate_fn: Some(Transform::Length),
        },
    ];
    proof {
        reveal_strlit("FLAVOR");
        reveal_strlit("TIME");
        reveal_strlit("Filament used");
        assert(r@ =~= catalog_spec());
        assert(r@[0].output_key()[0] != r@[1].output_key()[0]);
        assert(r@[0].output_key()[1] != r@[2].output_key()[1]);
        assert(r@[1].output_key()[0] != r@[2].output_key()[0]);
    }
    r
}

} // verus!
