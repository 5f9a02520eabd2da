//! Which language models a block of memory can hold.

use vstd::prelude::*;

verus! {

/// A model and the memory it needs.
#[derive(Debug, Clone, Copy)]
pub struct Model {
    pub name: &'static str,
    pub required_mb: usize,
    /// What the model needs, for display.
    pub size: &'static str,
}

/// Whether a model fits.
#[derive(Debug, Clone, Copy)]
pub struct ModelFit {
    pub model: Model,
    pub fits: bool,
}

/// The models considered, the largest first.
pub open spec fn known_models() -> Seq<Model> {
    seq![
        Model { name: "70B (Q4_K_M)", required_mb: 40000, size: "~40 GB" },
        Model { name: "34B (Q4_K_M)", required_mb: 20000, size: "~20 GB" },
        Model { name: "13B (Q4_K_M)", required_mb: 8000, size: "~8 GB" },
        Model { name: "7B  (Q4_K_M)", required_mb: 4000, size: "~4 GB" },
        Model { name: "3B  (Q4_K_M)", required_mb: 2000, size: "~2 GB" },
        Model { name: "1B  (Q4_K_M)", required_mb: 800, size: "~0.8 GB" },
    ]
}

/// `fits` tells for each known model whether it fits in `mb` mebibytes.
pub open spec fn are_fits(fits: Seq<ModelFit>, mb: usize) -> bool {
    &&& fits.len() == known_models().len()
    &&& forall|i: int|
        0 <= i < fits.len() ==> #[trigger] fits[i] == (ModelFit {
            model: known_models()[i],
            fits: mb >= known_models()[i].required_mb,
        })
}

/// Checks each known model against a block of `mb` mebibytes.
pub fn model_fits(mb: usize) -> (fits: Vec<ModelFit>)
    ensures
        are_fits(fits@, mb),
        fits@.len() == known_models().len(),
        forall|i: int|
            0 <= i < fits@.len() ==> #[trigger] fits@[i] == (ModelFit {
                model: known_models()[i],
                fits: mb >= known_models()[i].required_mb,
            }),
{
    let models: [Model; 6] = [
        Model { name: "70B (Q4_K_M)", required_mb: 40000, size: "~40 GB" },
        Model { name: "34B (Q4_K_M)", required_mb: 20000, size: "~20 GB" },
        Model { name: "13B (Q4_K_M)", required_mb: 8000, size: "~8 GB" },
        Model { name: "7B  (Q4_K_M)", required_mb: 4000, size: "~4 GB" },
        Model { name: "3B  (Q4_K_M)", required_mb: 2000, size: "~2 GB" },
        Model { name: "1B  (Q4_K_M)", required_mb: 800, size: "~0.8 GB" },
    ];
    assert(models@ =~= known_models());
    let mut fits: Vec<ModelFit> = Vec::new();
    let mut i: usize = 0;
    while i < 6
        invariant
            i <= 6,
            models@ == known_models(),
            fits@.len() == i,
            forall|k: int|
                0 <= k < i ==> #[trigger] fits@[k] == (ModelFit {
                    model: known_models()[k],
                    fits: mb >= known_models()[k].required_mb,
                }),
        decreases 6 - i,
    {
        fits.push(ModelFit { model: models[i], fits: mb >= models[i].required_mb });
        i = i + 1;
    }
    fits
}

/// The models stand in order of size: where one fits, so do all behind it.
pub proof fn smaller_models_fit(mb: usize, i: int, j: int)
    requires
        0 <= i <= j < known_models().len(),
        mb >= known_models()[i].required_mb,
    ensures
        mb >= known_models()[j].required_mb,
{
}

/// A model fits exactly if the block holds the memory it needs, which is 40000,
/// 20000, 8000, 4000, 2000 and 800 mebibytes, from the largest model down.
pub proof fn fits_exact(fits: Seq<ModelFit>, mb: usize)
    requires
        are_fits(fits, mb),
    ensures
        fits.len() == 6,
        forall|i: int|
            0 <= i < 6 ==> (#[trigger] fits[i]).fits == (mb >= fits[i].model.required_mb),
        fits[0].fits <==> mb >= 40000,
        fits[1].fits <==> mb >= 20000,
        fits[2].fits <==> mb >= 8000,
        fits[3].fits <==> mb >= 4000,
        fits[4].fits <==> mb >= 2000,
        fits[5].fits <==> mb >= 800,
        fits[0].model.name@ == "70B (Q4_K_M)"@ && fits[0].model.size@ == "~40 GB"@,
        fits[1].model.name@ == "34B (Q4_K_M)"@ && fits[1].model.size@ == "~20 GB"@,
        fits[2].model.name@ == "13B (Q4_K_M)"@ && fits[2].model.size@ == "~8 GB"@,
        fits[3].model.name@ == "7B  (Q4_K_M)"@ && fits[3].model.size@ == "~4 GB"@,
        fits[4].model.name@ == "3B  (Q4_K_M)"@ && fits[4].model.size@ == "~2 GB"@,
        fits[5].model.name@ == "1B  (Q4_K_M)"@ && fits[5].model.size@ == "~0.8 GB"@,
{
    assert(known_models().len() == 6);
    assert(fits[0].model == known_models()[0] && fits[1].model == known_models()[1]
        && fits[2].model == known_models()[2] && fits[3].model == known_models()[3]
        && fits[4].model == known_models()[4] && fits[5].model == known_models()[5]);
}

/// What fits in a block fits in every larger one.
pub proof fn larger_blocks_hold_more(
    fits: Seq<ModelFit>,
    more: Seq<ModelFit>,
    mb: usize,
    larger_mb: usize,
    i: int,
)
    requires
        are_fits(fits, mb),
        are_fits(more, larger_mb),
        mb <= larger_mb,
        0 <= i < fits.len(),
    ensures
        more.len() == fits.len(),
        more[i].model == fits[i].model,
        fits[i].fits ==> more[i].fits,
{
}

} // verus!
