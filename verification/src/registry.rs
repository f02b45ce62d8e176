//! Registry of the built-in closed-form conditional-independence tests: the
//! seven tests that the registry constructs by name, in registry order.

use vstd::prelude::*;

use crate::ci_tests::{
    pearson_equivalence_meta, ChiSquared, CressieRead, FreemanTukey, LogLikelihood,
    ModifiedLikelihood, PearsonCorrelation,
};
use crate::strategy::{meta_is, DataType, IndependenceRule, TestMeta};

verus! {

/// The stable names of the registered tests, in registry order.
pub open spec fn registry_names() -> Seq<Seq<char>> {
    seq![
        "chi_squared"@,
        "log_likelihood"@,
        "cressie_read"@,
        "freeman_tukey"@,
        "modified_likelihood"@,
        "pearson_correlation"@,
        "pearson_equivalence"@,
    ]
}

/// The data type each registered test consumes, in registry order.
pub open spec fn registry_data_types() -> Seq<DataType> {
    seq![
        DataType::Discrete,
        DataType::Discrete,
        DataType::Discrete,
        DataType::Discrete,
        DataType::Discrete,
        DataType::Continuous,
        DataType::Continuous,
    ]
}

/// The rule of the `i`-th registered test: every test reads a p-value the
/// standard way except the equivalence test, the last one.
pub open spec fn registry_rule(i: int) -> IndependenceRule {
    if i == 6 {
        IndependenceRule::PValueLt
    } else {
        IndependenceRule::PValueGe
    }
}

/// Metadata for every built-in closed-form test, in registry order.
pub fn all_metas() -> (res: Vec<TestMeta>)
    ensures
        res@.len() == registry_names().len(),
        forall|i: int| 0 <= i < res@.len() ==> meta_is(
            #[trigger] res@[i],
            registry_names()[i],
            registry_data_types()[i],
            registry_rule(i),
        ),
{
    let mut metas: Vec<TestMeta> = Vec::with_capacity(7);
    metas.push(ChiSquared::new().meta());
    metas.push(LogLikelihood::new().meta());
    metas.push(CressieRead::new().meta());
    metas.push(FreemanTukey::new().meta());
    metas.push(ModifiedLikelihood::new().meta());
    metas.push(PearsonCorrelation::new().meta());
    metas.push(pearson_equivalence_meta());
    metas
}

/// Whether two texts are equal.
fn same_text(a: &str, b: &str) -> (res: bool)
    ensures
        res == (a@ == b@),
{
    a.to_owned() == b.to_owned()
}

/// Position in registry order of the test named `name`, if one is.
pub fn registry_position(name: &str) -> (res: Option<usize>)
    ensures
        match res {
            Some(i) => i < registry_names().len() && registry_names()[i as int] == name@,
            None => forall|i: int| 0 <= i < registry_names().len() ==> registry_names()[i] != name@,
        },
{
    let metas = all_metas();
    let mut i: usize = 0;
    while i < metas.len()
        invariant
            i <= metas@.len(),
            metas@.len() == registry_names().len(),
            forall|k: int| 0 <= k < metas@.len() ==> (#[trigger] metas@[k]).name@ == registry_names()[k],
            forall|k: int| 0 <= k < i ==> registry_names()[k] != name@,
        decreases metas.len() - i,
    {
        if same_text(metas[i].name, name) {
            return Some(i);
        }
        i += 1;
    }
    None
}

/// The registered names are pairwise distinct, so a name selects at most
/// one registered test.
pub proof fn lemma_registry_names_unique()
    ensures
        registry_names().no_duplicates(),
{
    reveal_strlit("chi_squared");
    reveal_strlit("log_likelihood");
    reveal_strlit("cressie_read");
    reveal_strlit("freeman_tukey");
    reveal_strlit("modified_likelihood");
    reveal_strlit("pearson_correlation");
    reveal_strlit("pearson_equivalence");
    let names = registry_names();
    assert forall|i: int, j: int| 0 <= i < names.len() && 0 <= j < names.len() && i != j implies names[i] != names[j] by {
        if names[i] == names[j] {
            assert(names[i].len() == names[j].len());
            assert(names[i][0] == names[j][0]);
            assert(names[i][1] == names[j][1]);
            assert(names[i][names[i].len() - 1] == names[j][names[j].len() - 1]);
        }
    }
}

} // verus!
