//! An evolution with one parent on boolean data.

use crate::dag::evaluation::predictions;
use crate::global_params::{CgpParameters, ParameterError};
use crate::standard_cgp::chromosome::Chromosome;
use crate::utils::fitness_metrics::{cells, spec_fitness_boolean, table_view};
use crate::utils::function_set::FunctionSet;
use crate::utils::utility_funcs::{
    first_index_of, get_argmin, get_argmins_of_value, get_min, indices_of, lemma_indices_of, random_below,
};
use vstd::prelude::*;

verus! {

/// An evolution with one parent on boolean data: in every step the other
/// individuals become mutated copies of the parent, and an individual that
/// is at least as good as the parent takes its place.
#[derive(Debug)]
pub struct Runner {
    pub params: CgpParameters,
    pub data: Vec<Vec<bool>>,
    pub label: Vec<Vec<bool>>,
    pub population: Vec<Chromosome>,
    pub best_fitness: usize,
    pub fitness_vals: Vec<usize>,
    pub parent_id: usize,
}

/// Why no evolution can be started.
#[derive(Clone, Copy, Debug, PartialEq, Eq, Structural)]
pub enum RunnerError {
    /// No genotype can be built from the settings.
    Parameters(ParameterError),
    /// The settings ask for another function set than the boolean one.
    NotBoolean,
    /// `mu + lambda` is 0 or does not fit a machine word.
    PopulationSize,
    /// The rows of the data and of the labels do not match each other or
    /// the numbers of input and output nodes.
    DataShape,
}

/// Whether there is a row of labels for every row of data, every row of
/// data has one value for each input node, every row of labels one for each
/// output node, and the number of label values fits a machine word.
pub open spec fn data_fits(params: CgpParameters, data: Seq<Vec<bool>>, label: Seq<Vec<bool>>) -> bool {
    &&& data.len() == label.len()
    &&& forall|r: int| 0 <= r < data.len() ==> (#[trigger] data[r])@.len() == params.nbr_inputs
    &&& forall|r: int| 0 <= r < label.len() ==> (#[trigger] label[r])@.len() == params.nbr_outputs
    &&& cells(table_view(label), label.len()) <= usize::MAX
}

/// The fitness of a genotype on the data: the number of output values that
/// differ from the labels.
pub open spec fn fitness_of(
    chromosome: Chromosome,
    data: Seq<Vec<bool>>,
    label: Seq<Vec<bool>>,
) -> nat {
    spec_fitness_boolean(
        predictions(
            chromosome.genes(),
            table_view(data),
            chromosome.params.spec_nbr_inner(),
            chromosome.params.nbr_outputs as nat,
        ),
        table_view(label),
    )
}

/// What `Runner::new` answers to given settings and data.
pub open spec fn spec_start_check(
    params: CgpParameters,
    data: Seq<Vec<bool>>,
    label: Seq<Vec<bool>>,
) -> Result<(), RunnerError> {
    if params.spec_check() is Err {
        Err(RunnerError::Parameters(params.spec_check()->Err_0))
    } else if params.function_set != FunctionSet::Boolean {
        Err(RunnerError::NotBoolean)
    } else if params.mu + params.lambda == 0 || params.mu + params.lambda > usize::MAX {
        Err(RunnerError::PopulationSize)
    } else if !data_fits(params, data, label) {
        Err(RunnerError::DataShape)
    } else {
        Ok(())
    }
}

/// Whether every row of `table` has `width` entries.
fn rows_have(table: &Vec<Vec<bool>>, width: usize) -> (fits: bool)
    ensures
        fits == (forall|r: int| 0 <= r < table@.len() ==> (#[trigger] table@[r])@.len() == width),
{
    let mut r: usize = 0;
    while r < table.len()
        invariant
            r <= table@.len(),
            forall|i: int| 0 <= i < r ==> (#[trigger] table@[i])@.len() == width,
        decreases table@.len() - r,
    {
        if table[r].len() != width {
            return false;
        }
        r += 1;
    }
    true
}

/// Whether a table of `rows` rows of `width` entries has no more cells than
/// a machine word can count.
fn cells_fit(table: &Vec<Vec<bool>>, width: usize) -> (fits: bool)
    requires
        forall|r: int| 0 <= r < table@.len() ==> (#[trigger] table@[r])@.len() == width,
    ensures
        fits == (cells(table_view(table@), table@.len()) <= usize::MAX),
{
    let ghost view = table_view(table@);
    let mut total: usize = 0;
    let mut r: usize = 0;
    while r < table.len()
        invariant
            view == table_view(table@),
            forall|i: int| 0 <= i < table@.len() ==> (#[trigger] table@[i])@.len() == width,
            r <= table@.len(),
            total == cells(view, r as nat),
        decreases table@.len() - r,
    {
        if total > usize::MAX - width {
            proof {
                crate::utils::fitness_metrics::lemma_cells_grow(
                    view,
                    (r + 1) as nat,
                    table@.len() as nat,
                );
            }
            return false;
        }
        total += width;
        r += 1;
    }
    true
}

/// Whether the data and the labels fit genotypes with the settings
/// `params`, so that such a genotype can be evaluated on them.
pub fn check_data(params: &CgpParameters, data: &Vec<Vec<bool>>, label: &Vec<Vec<bool>>) -> (fits:
    bool)
    ensures
        fits == data_fits(*params, data@, label@),
{
    data.len() == label.len() && rows_have(data, params.nbr_inputs) && rows_have(
        label,
        params.nbr_outputs,
    ) && cells_fit(label, params.nbr_outputs)
}

/// `child` is what `mutate_single` may make of a copy of `parent`.
pub open spec fn is_descendant(parent: Chromosome, child: Chromosome) -> bool {
    Chromosome::is_single_mutation(parent, child)
}

/// The next parent among `min_keys`, the individuals of the best fitness:
/// the only one where there is one, else a random one of those that are
/// not the parent `parent_id`, each being as likely as any other.
pub fn choose_parent(min_keys: Vec<usize>, parent_id: usize) -> (chosen: usize)
    requires
        min_keys@.len() > 0,
    ensures
        min_keys@.contains(chosen),
        min_keys@.len() == 1 ==> chosen == min_keys@[0],
        min_keys@.len() >= 2 && min_keys@.no_duplicates() ==> chosen != parent_id,
{
    let mut min_keys = min_keys;
    let ghost keys = min_keys@;
    if min_keys.len() == 1 {
        return min_keys[0];
    }
    match first_index_of(&min_keys, parent_id) {
        Some(index) => {
            min_keys.remove(index);
            proof {
                assert forall|k: int| 0 <= k < min_keys@.len() implies keys.contains(
                    #[trigger] min_keys@[k],
                ) && (keys.no_duplicates() ==> min_keys@[k] != parent_id) by {
                    let k2 = if k < index { k } else { k + 1 };
                    assert(min_keys@[k] == keys[k2]);
                }
            }
        },
        None => {
            proof {
                assert forall|k: int| 0 <= k < min_keys@.len() implies keys.contains(
                    #[trigger] min_keys@[k],
                ) && min_keys@[k] != parent_id by {
                }
            }
        },
    }
    let pick = random_below(min_keys.len());
    min_keys[pick]
}

impl Runner {
    /// The settings are valid and boolean, the data fit them, and every
    /// individual is a valid genotype with these settings.
    pub open spec fn population_ok(&self) -> bool {
        &&& self.params.valid()
        &&& self.params.function_set == FunctionSet::Boolean
        &&& data_fits(self.params, self.data@, self.label@)
        &&& self.population@.len() == self.params.mu + self.params.lambda
        &&& self.fitness_vals@.len() == self.population@.len()
        &&& self.parent_id < self.population@.len()
        &&& forall|i: int|
            0 <= i < self.population@.len() ==> (#[trigger] self.population@[i]).wf()
                && self.population@[i].params == self.params
    }

    /// The fitness noted for individual `i` is its fitness on the data.
    pub open spec fn fitness_noted(&self, i: int) -> bool {
        self.fitness_vals@[i] == fitness_of(self.population@[i], self.data@, self.label@)
    }

    /// Every individual has its active nodes cached.
    pub open spec fn all_cached(&self) -> bool {
        forall|i: int|
            0 <= i < self.population@.len() ==> (#[trigger] self.population@[i]).active_nodes is Some
    }

    /// The evolution is in order: the population is, every individual has
    /// its active nodes cached and its fitness noted, and the parent is an
    /// individual of the best fitness, which is no worse than any other.
    pub open spec fn wf(&self) -> bool {
        &&& self.population_ok()
        &&& self.all_cached()
        &&& forall|i: int| 0 <= i < self.population@.len() ==> #[trigger] self.fitness_noted(i)
        &&& self.best_fitness == self.fitness_vals@[self.parent_id as int]
        &&& forall|i: int|
            0 <= i < self.fitness_vals@.len() ==> self.fitness_vals@[i] >= self.best_fitness
    }

    /// Starts an evolution: `mu + lambda` random genotypes, each with its
    /// fitness on the data, and the first of the best ones as parent.
    pub fn new(params: CgpParameters, data: Vec<Vec<bool>>, label: Vec<Vec<bool>>) -> (made: Result<
        Runner,
        RunnerError,
    >)
        ensures
            match made {
                Ok(runner) => {
                    &&& spec_start_check(params, data@, label@) is Ok
                    &&& runner.wf()
                    &&& runner.params == params
                    &&& runner.data == data
                    &&& runner.label == label
                },
                Err(reason) => spec_start_check(params, data@, label@) == Err::<(), RunnerError>(
                    reason,
                ),
            },
    {
        match params.check() {
            Err(reason) => {
                return Err(RunnerError::Parameters(reason));
            },
            Ok(_) => {},
        }
        match params.function_set {
            FunctionSet::Boolean => {},
            _ => {
                return Err(RunnerError::NotBoolean);
            },
        }
        if params.mu > usize::MAX - params.lambda || params.mu + params.lambda == 0 {
            return Err(RunnerError::PopulationSize);
        }
        if !check_data(&params, &data, &label) {
            return Err(RunnerError::DataShape);
        }
        let size = params.mu + params.lambda;
        let mut chromosomes: Vec<Chromosome> = Vec::new();
        let mut fitness_vals: Vec<usize> = Vec::new();
        let mut made: usize = 0;
        while made < size
            invariant
                params.valid(),
                params.function_set == FunctionSet::Boolean,
                data_fits(params, data@, label@),
                made <= size,
                chromosomes@.len() == made,
                fitness_vals@.len() == made,
                forall|i: int|
                    0 <= i < made ==> (#[trigger] chromosomes@[i]).wf() && chromosomes@[i].params
                        == params && chromosomes@[i].active_nodes is Some,
                forall|i: int|
                    0 <= i < made ==> (#[trigger] fitness_vals@[i]) == fitness_of(
                        chromosomes@[i],
                        data@,
                        label@,
                    ),
            decreases size - made,
        {
            let mut chromosome = match Chromosome::new(params) {
                Ok(chromosome) => chromosome,
                Err(reason) => {
                    // The settings were found valid above.
                    proof {
                        assert(false);
                    }
                    return Err(RunnerError::Parameters(reason));
                },
            };
            let fitness = chromosome.evaluate(&data, &label);
            fitness_vals.push(fitness);
            chromosomes.push(chromosome);
            made += 1;
        }
        let best_fitness = get_min(&fitness_vals);
        let parent_id = get_argmin(&fitness_vals);
        let runner = Runner {
            params,
            data,
            label,
            population: chromosomes,
            best_fitness,
            fitness_vals,
            parent_id,
        };
        proof {
            let i = choose|i: int|
                0 <= i < runner.fitness_vals@.len() && runner.fitness_vals@[i] == best_fitness;
            assert forall|i: int|
                0 <= i < runner.population@.len() implies #[trigger] runner.fitness_noted(i) by {
                assert(runner.fitness_vals@[i] == fitness_of(
                    runner.population@[i],
                    runner.data@,
                    runner.label@,
                ));
            }
        }
        Ok(runner)
    }

    /// One generation: the other individuals are reordered, replaced by
    /// mutated copies of the parent and evaluated; then an individual of
    /// the best fitness becomes the parent, another one than before where
    /// there is one. The best fitness never gets worse.
    pub fn learn_step(&mut self, i: usize)
        requires
            old(self).wf(),
        ensures
            final(self).wf(),
            final(self).params == old(self).params,
            final(self).data == old(self).data,
            final(self).label == old(self).label,
            final(self).population@.len() == old(self).population@.len(),
            final(self).best_fitness <= old(self).best_fitness,
            final(self).population@[old(self).parent_id as int].nodes_grid@
                == old(self).population@[old(self).parent_id as int].nodes_grid@,
            forall|k: int|
                0 <= k < final(self).population@.len() && k != old(self).parent_id ==> is_descendant(
                    old(self).population@[old(self).parent_id as int],
                    #[trigger] final(self).population@[k],
                ),
    {
        proof {
            assert(self.fitness_noted(self.parent_id as int));
            assert(self.population@[self.parent_id as int].active_nodes is Some);
        }
        self.reorder();
        self.mutate_chromosomes();
        let ghost mutated = *self;
        self.eval_chromosomes();
        self.new_parent_by_neutral_search();
        proof {
            let parent = old(self).population@[old(self).parent_id as int];
            assert forall|k: int|
                0 <= k < self.population@.len() && k != old(self).parent_id implies is_descendant(
                parent,
                #[trigger] self.population@[k],
            ) by {
                let child = mutated.population@[k];
                assert(is_descendant(parent, child));
                assert(child.params == self.population@[k].params);
                Chromosome::lemma_same_ends(parent, child, parent, self.population@[k]);
            }
        }
    }

    /// The parent keeps its place, its genotype and its noted fitness.
    pub open spec fn parent_kept(&self, before: Runner) -> bool {
        &&& self.params == before.params
        &&& self.data == before.data
        &&& self.label == before.label
        &&& self.parent_id == before.parent_id
        &&& self.best_fitness == before.best_fitness
        &&& self.population@.len() == before.population@.len()
        &&& self.population@[self.parent_id as int] == before.population@[before.parent_id as int]
        &&& self.fitness_vals@ == before.fitness_vals@
    }

    /// Reorders every individual but the parent.
    fn reorder(&mut self)
        requires
            old(self).population_ok(),
        ensures
            final(self).population_ok(),
            final(self).parent_kept(*old(self)),
            forall|k: int|
                0 <= k < final(self).population@.len() && k != old(self).parent_id ==> is_reordered(
                    old(self).population@[k],
                    #[trigger] final(self).population@[k],
                ),
    {
        let size = self.population.len();
        let mut id: usize = 0;
        while id < size
            invariant
                self.population_ok(),
                self.parent_kept(*old(self)),
                size == self.population@.len(),
                id <= size,
                forall|k: int|
                    0 <= k < id && k != self.parent_id ==> is_reordered(
                        old(self).population@[k],
                        #[trigger] self.population@[k],
                    ),
                forall|k: int|
                    id <= k < size ==> (#[trigger] self.population@[k]) == old(self).population@[k],
            decreases size - id,
        {
            if id != self.parent_id {
                self.population[id].reorder();
            }
            id += 1;
        }
    }

    /// Replaces every individual but the parent by a mutated copy of the
    /// parent.
    fn mutate_chromosomes(&mut self)
        requires
            old(self).population_ok(),
            old(self).population@[old(self).parent_id as int].active_nodes is Some,
        ensures
            final(self).population_ok(),
            final(self).parent_kept(*old(self)),
            forall|k: int|
                0 <= k < final(self).population@.len() && k != old(self).parent_id ==> is_descendant(
                    old(self).population@[old(self).parent_id as int],
                    #[trigger] final(self).population@[k],
                ),
    {
        let size = self.population.len();
        let ghost parent = self.population@[self.parent_id as int];
        let mut i: usize = 0;
        while i < size
            invariant
                self.population_ok(),
                self.parent_kept(*old(self)),
                parent == old(self).population@[old(self).parent_id as int],
                self.population@[self.parent_id as int].active_nodes is Some,
                size == self.population@.len(),
                i <= size,
                forall|k: int|
                    0 <= k < i && k != self.parent_id ==> is_descendant(
                        parent,
                        #[trigger] self.population@[k],
                    ),
            decreases size - i,
        {
            if i != self.parent_id {
                let mut child = self.population[self.parent_id].clone();
                let ghost copy = child;
                child.mutate_single();
                proof {
                    Chromosome::lemma_same_ends(copy, child, parent, child);
                }
                self.population[i] = child;
            }
            i += 1;
        }
    }

    /// Notes the fitness of every individual but the parent, whose fitness
    /// is noted already, and the best fitness of all.
    fn eval_chromosomes(&mut self)
        requires
            old(self).population_ok(),
            old(self).population@[old(self).parent_id as int].active_nodes is Some,
            old(self).fitness_noted(old(self).parent_id as int),
            old(self).best_fitness == old(self).fitness_vals@[old(self).parent_id as int],
        ensures
            final(self).population_ok(),
            final(self).all_cached(),
            final(self).params == old(self).params,
            final(self).data == old(self).data,
            final(self).label == old(self).label,
            final(self).parent_id == old(self).parent_id,
            final(self).population@.len() == old(self).population@.len(),
            forall|k: int|
                0 <= k < final(self).population@.len() ==> (
                #[trigger] final(self).population@[k]).nodes_grid@ == old(self).population@[k].nodes_grid@,
            forall|i: int| 0 <= i < final(self).population@.len() ==> #[trigger] final(self).fitness_noted(i),
            final(self).fitness_vals@.contains(final(self).best_fitness),
            forall|i: int|
                0 <= i < final(self).fitness_vals@.len() ==> final(self).fitness_vals@[i]
                    >= final(self).best_fitness,
            final(self).best_fitness <= old(self).best_fitness,
    {
        let size = self.population.len();
        let mut i: usize = 0;
        while i < size
            invariant
                self.population_ok(),
                self.params == old(self).params,
                self.data == old(self).data,
                self.label == old(self).label,
                self.parent_id == old(self).parent_id,
                self.best_fitness == old(self).best_fitness,
                size == self.population@.len(),
                size == old(self).population@.len(),
                i <= size,
                self.fitness_noted(self.parent_id as int),
                self.fitness_vals@[self.parent_id as int] == old(self).best_fitness,
                self.population@[self.parent_id as int].active_nodes is Some,
                forall|k: int| 0 <= k < i ==> #[trigger] self.fitness_noted(k),
                forall|k: int|
                    0 <= k < i ==> (#[trigger] self.population@[k]).active_nodes is Some,
                forall|k: int|
                    0 <= k < size ==> (#[trigger] self.population@[k]).nodes_grid@
                        == old(self).population@[k].nodes_grid@,
            decreases size - i,
        {
            if i != self.parent_id {
                let ghost before = *self;
                let fitness = self.population[i].evaluate(&self.data, &self.label);
                self.fitness_vals[i] = fitness;
                proof {
                    assert forall|k: int| 0 <= k < i + 1 implies #[trigger] self.fitness_noted(k) by {
                        if k < i {
                            assert(before.fitness_noted(k));
                        }
                    }
                    assert(before.fitness_noted(before.parent_id as int));
                }
            }
            i += 1;
        }
        let best_fitness = get_min(&self.fitness_vals);
        let ghost noted = *self;
        self.best_fitness = best_fitness;
        proof {
            assert forall|k: int|
                0 <= k < self.population@.len() implies #[trigger] self.fitness_noted(k) by {
                assert(noted.fitness_noted(k));
            }
        }
    }

    /// Makes an individual of the best fitness the parent: another one than
    /// before where there is one.
    fn new_parent_by_neutral_search(&mut self)
        requires
            old(self).population_ok(),
            old(self).all_cached(),
            forall|i: int| 0 <= i < old(self).population@.len() ==> #[trigger] old(self).fitness_noted(i),
            old(self).fitness_vals@.contains(old(self).best_fitness),
            forall|i: int|
                0 <= i < old(self).fitness_vals@.len() ==> old(self).fitness_vals@[i]
                    >= old(self).best_fitness,
        ensures
            final(self).wf(),
            final(self).params == old(self).params,
            final(self).data == old(self).data,
            final(self).label == old(self).label,
            final(self).population == old(self).population,
            final(self).fitness_vals == old(self).fitness_vals,
            final(self).best_fitness == old(self).best_fitness,
            indices_of(old(self).fitness_vals@, old(self).best_fitness).len() >= 2
                ==> final(self).parent_id != old(self).parent_id,
    {
        let mut min_keys: Vec<usize> = Vec::new();
        let size = self.fitness_vals.len();
        get_argmins_of_value(&self.fitness_vals, &mut min_keys, self.best_fitness);
        proof {
            lemma_indices_of(self.fitness_vals@, self.best_fitness);
            assert(min_keys@ =~= indices_of(self.fitness_vals@, self.best_fitness));
            let i = choose|i: int|
                0 <= i < self.fitness_vals@.len() && self.fitness_vals@[i] == self.best_fitness;
            assert(0 <= i < size);
            assert(min_keys@.contains(i as usize));
        }
        let ghost keys = min_keys@;
        self.parent_id = choose_parent(min_keys, self.parent_id);
        proof {
            let k = choose|k: int| 0 <= k < keys.len() && keys[k] == self.parent_id;
            assert(keys[k] < self.fitness_vals@.len());
            assert forall|i: int|
                0 <= i < self.population@.len() implies #[trigger] self.fitness_noted(i) by {
                assert(old(self).fitness_noted(i));
            }
        }
    }

    /// The fitness of the parent: the least number of wrong output values
    /// in the population.
    pub fn get_best_fitness(&self) -> (fitness: usize)
        ensures
            fitness == self.best_fitness,
    {
        self.best_fitness
    }

    /// The fitness of the individuals that are kept as they are: of the
    /// parent alone.
    pub fn get_elitism_fitness(&self) -> (fitness: Vec<usize>)
        ensures
            fitness@ == seq![self.best_fitness],
    {
        let mut fitness: Vec<usize> = Vec::new();
        fitness.push(self.best_fitness);
        fitness
    }

    /// A copy of the parent.
    pub fn get_best_solution(&self) -> (parent: Chromosome)
        requires
            self.wf(),
        ensures
            parent.wf(),
            parent.params == self.params,
            parent.nodes_grid@ == self.population@[self.parent_id as int].nodes_grid@,
            fitness_of(parent, self.data@, self.label@) == self.best_fitness,
    {
        proof {
            assert(self.fitness_noted(self.parent_id as int));
        }
        self.population[self.parent_id].clone()
    }
}

/// `after` is what `reorder` makes of the genotype `before`: a valid
/// genotype with the same settings and output positions, which is `before`
/// itself unless the setting `cgp_type` is 1, and then `before` with its
/// connected computational nodes spread evenly.
pub open spec fn is_reordered(before: Chromosome, after: Chromosome) -> bool {
    &&& after.wf()
    &&& after.params == before.params
    &&& after.output_node_ids == before.output_node_ids
    &&& before.params.cgp_type != 1 ==> after == before
    &&& before.params.cgp_type == 1
        ==> crate::reorder::chromosome_reorder_equidistant::is_spread(
        before.params,
        before.nodes_grid@,
        after.nodes_grid@,
    )
}

} // verus!
