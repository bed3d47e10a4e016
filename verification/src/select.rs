//! Which products of the input become layers.
use crate::error::{Error, ErrorView};
use crate::model::PreparedProduct;
use crate::products::GeneratingProcessType;
use crate::quantize::{
    copy_texts, find_name, lemma_first_place_absent, lemma_first_place_within,
};
use crate::text::{
    before, in_text_order, lemma_precedes_irreflexive, lemma_precedes_total,
    lemma_precedes_transitive, precedes, same, sorted_distinct, texts,
};
use crate::time::{minutes_in, whole_minutes, EARLIEST, LATEST};
use crate::vectors::{lemma_kept_are_some, lemma_kept_has};
use vstd::prelude::*;

verus! {

// ---------------------------------------------------------------------------
// The product that is asked for
// ---------------------------------------------------------------------------

/// The product to convert: the one that is requested, or the only one there is.
pub open spec fn selected_product(available: Seq<Seq<char>>, requested: Option<Seq<char>>) -> Result<
    Seq<char>,
    ErrorView,
> {
    match requested {
        Some(requested) => if available.contains(requested) {
            Ok(requested)
        } else {
            Err(ErrorView::ProductNotPresent { requested, available })
        },
        None => if available.len() == 1 {
            Ok(available[0])
        } else {
            Err(ErrorView::SeveralProducts { available })
        },
    }
}

/// The characters of a text that may be missing.
pub open spec fn requested_text(requested: Option<&str>) -> Option<Seq<char>> {
    match requested {
        Some(requested) => Some(requested@),
        None => None,
    }
}

/// The product to convert.
pub fn resolve_product_selector(available: &Vec<String>, requested: Option<&str>) -> (result:
    Result<String, Error>)
    ensures
        match result {
            Ok(name) => selected_product(texts(available@), requested_text(requested)) == Ok::<
                Seq<char>,
                ErrorView,
            >(name@),
            Err(error) => selected_product(texts(available@), requested_text(requested)) == Err::<
                Seq<char>,
                ErrorView,
            >(error@),
        },
{
    if let Some(requested) = requested {
        return match find_name(available, requested) {
            Some(place) => {
                proof {
                    lemma_first_place_within(texts(available@), requested@);
                    assert(texts(available@).contains(requested@));
                }
                Ok(requested.to_owned())
            },
            None => {
                proof {
                    lemma_first_place_absent(texts(available@), requested@);
                }
                Err(
                    Error::ProductNotPresent {
                        requested: requested.to_owned(),
                        available: copy_texts(available),
                    },
                )
            },
        };
    }
    if available.len() != 1 {
        return Err(Error::SeveralProducts { available: copy_texts(available) });
    }
    Ok(available[0].clone())
}

// ---------------------------------------------------------------------------
// Filters
// ---------------------------------------------------------------------------

/// How many minutes a product looks ahead.
pub open spec fn lead_minutes(product: PreparedProduct) -> int {
    minutes_in(product.product_id.datetime - product.product_id.reference_datetime)
}

/// Which products are kept.
pub struct Criteria {
    /// The name that selects the product.
    pub product: Seq<char>,
    /// The least number of minutes ahead.
    pub min_lead_time: Option<i64>,
    /// Analyses are dropped.
    pub skip_analysis: bool,
}

/// The product is the one that is asked for.
pub open spec fn is_named(name: Seq<char>) -> spec_fn(PreparedProduct) -> bool {
    |product: PreparedProduct| product.product_id.selector() == name
}

/// The product looks far enough ahead.
pub open spec fn is_ahead(minutes: i64) -> spec_fn(PreparedProduct) -> bool {
    |product: PreparedProduct| lead_minutes(product) >= minutes
}

/// The product is no analysis.
pub open spec fn is_no_analysis() -> spec_fn(PreparedProduct) -> bool {
    |product: PreparedProduct|
        product.product_id.generating_process != GeneratingProcessType::Analysis
}

/// What is kept of the products, or why nothing is.
pub open spec fn kept(products: Seq<PreparedProduct>, criteria: Criteria) -> Result<
    Seq<PreparedProduct>,
    ErrorView,
> {
    let named = products.filter(is_named(criteria.product));
    let ahead = match criteria.min_lead_time {
        Some(minutes) => named.filter(is_ahead(minutes)),
        None => named,
    };
    let forecasts = if criteria.skip_analysis {
        ahead.filter(is_no_analysis())
    } else {
        ahead
    };
    if criteria.min_lead_time is Some && ahead.len() == 0 {
        Err(
            ErrorView::NothingFarEnough {
                minutes: criteria.min_lead_time->Some_0,
                product: criteria.product,
            },
        )
    } else if criteria.skip_analysis && forecasts.len() == 0 {
        Err(ErrorView::OnlyAnalyses { product: criteria.product })
    } else {
        Ok(forecasts)
    }
}

/// The times of the product are such as `chrono` can tell.
pub open spec fn has_times(product: PreparedProduct) -> bool {
    &&& EARLIEST <= product.product_id.datetime <= LATEST
    &&& EARLIEST <= product.product_id.reference_datetime <= LATEST
}

/// The times of all products are such as `chrono` can tell.
pub open spec fn have_times(products: Seq<PreparedProduct>) -> bool {
    forall|i: int| 0 <= i < products.len() ==> has_times(#[trigger] products[i])
}

proof fn lemma_kept_have_times(products: Seq<PreparedProduct>, keep: spec_fn(PreparedProduct) -> bool)
    requires
        have_times(products),
    ensures
        have_times(products.filter(keep)),
{
    assert forall|i: int| 0 <= i < products.filter(keep).len() implies has_times(
        #[trigger] products.filter(keep)[i],
    ) by {
        lemma_kept_are_some(products, keep, i);
    }
}

/// How many minutes a product looks ahead.
pub fn lead_time(product: &PreparedProduct) -> (minutes: i64)
    requires
        has_times(*product),
    ensures
        minutes == lead_minutes(*product),
{
    whole_minutes(product.product_id.datetime - product.product_id.reference_datetime)
}

/// Which products a step keeps.
enum Step<'a> {
    Named(&'a str),
    Ahead(i64),
    NoAnalysis,
}

/// What a step asks of a product.
spec fn step_keeps(step: Step) -> spec_fn(PreparedProduct) -> bool {
    match step {
        Step::Named(name) => is_named(name@),
        Step::Ahead(minutes) => is_ahead(minutes),
        Step::NoAnalysis => is_no_analysis(),
    }
}

/// Whether a step keeps a product.
fn keeps(step: &Step, product: &PreparedProduct) -> (answer: bool)
    requires
        has_times(*product),
    ensures
        answer == step_keeps(*step)(*product),
{
    match step {
        Step::Named(name) => same(product.product_id.product_selector().as_str(), name),
        Step::Ahead(minutes) => lead_time(product) >= *minutes,
        Step::NoAnalysis => !matches!(
            product.product_id.generating_process,
            GeneratingProcessType::Analysis
        ),
    }
}

/// The products that a step keeps, in their order.
fn filtered(products: Vec<PreparedProduct>, step: Step) -> (result: Vec<PreparedProduct>)
    requires
        have_times(products@),
    ensures
        result@ == products@.filter(step_keeps(step)),
        have_times(result@),
{
    let ghost all = products@;
    let mut rest = products;
    let mut result: Vec<PreparedProduct> = Vec::new();
    proof {
        assert(all.take(0).filter(step_keeps(step)) =~= Seq::empty()) by {
            reveal(Seq::filter);
        }
        assert(all.skip(0) =~= all);
    }
    let count: usize = rest.len();
    for i in 0..count
        invariant
            have_times(all),
            count == all.len(),
            rest@ == all.skip(i as int),
            result@ == all.take(i as int).filter(step_keeps(step)),
    {
        let product = rest.remove(0);
        proof {
            assert(product == all[i as int]);
            assert(rest@ =~= all.skip(i as int + 1));
            let now = all.take(i as int + 1);
            assert(now.drop_last() =~= all.take(i as int));
            assert(now.last() == product);
            reveal(Seq::filter);
        }
        if keeps(&step, &product) {
            result.push(product);
        }
    }
    proof {
        assert(all.take(all.len() as int) =~= all);
        lemma_kept_have_times(all, step_keeps(step));
    }
    result
}

// ---------------------------------------------------------------------------
// The order of the layers
// ---------------------------------------------------------------------------

/// What layers are ordered by: the time that the product is about, then its name.
pub open spec fn layer_key(product: PreparedProduct) -> (i64, Seq<char>) {
    (product.product_id.datetime, product.product_id.path@)
}

/// One key stands before another.
pub open spec fn key_before(a: (i64, Seq<char>), b: (i64, Seq<char>)) -> bool {
    a.0 < b.0 || a.0 == b.0 && precedes(a.1, b.1)
}

/// No product stands behind one that belongs behind it.
pub open spec fn in_layer_order(products: Seq<PreparedProduct>) -> bool {
    forall|i: int, j: int|
        0 <= i < j < products.len() ==> !key_before(
            layer_key(#[trigger] products[j]),
            layer_key(#[trigger] products[i]),
        )
}

/// The product has the key.
pub open spec fn has_layer_key(key: (i64, Seq<char>)) -> spec_fn(PreparedProduct) -> bool {
    |product: PreparedProduct| layer_key(product) == key
}

/// The sequences hold the same products, and those with one key in the same order.
pub open spec fn same_products(a: Seq<PreparedProduct>, b: Seq<PreparedProduct>) -> bool {
    &&& a.len() == b.len()
    &&& forall|key: (i64, Seq<char>)| #[trigger]
        a.filter(has_layer_key(key)) == b.filter(has_layer_key(key))
}

proof fn lemma_key_order(a: (i64, Seq<char>), b: (i64, Seq<char>), c: (i64, Seq<char>))
    ensures
        !key_before(a, a),
        key_before(a, b) ==> !key_before(b, a),
        !key_before(b, a) && !key_before(c, b) ==> !key_before(c, a),
        !key_before(a, b) && !key_before(b, a) ==> a == b,
{
    lemma_precedes_irreflexive(a.1);
    lemma_precedes_total(a.1, b.1);
    lemma_precedes_total(b.1, c.1);
    lemma_precedes_total(a.1, c.1);
    if precedes(a.1, b.1) && precedes(b.1, a.1) {
        lemma_precedes_transitive(a.1, b.1, a.1);
    }
    if precedes(c.1, a.1) && precedes(a.1, b.1) {
        lemma_precedes_transitive(c.1, a.1, b.1);
    }
    if precedes(b.1, c.1) && precedes(c.1, a.1) {
        lemma_precedes_transitive(b.1, c.1, a.1);
    }
    if precedes(c.1, a.1) && precedes(a.1, c.1) {
        lemma_precedes_transitive(c.1, a.1, c.1);
        lemma_precedes_irreflexive(c.1);
    }
}

/// Whether one product belongs before another.
fn belongs_before(a: &PreparedProduct, b: &PreparedProduct) -> (answer: bool)
    ensures
        answer == key_before(layer_key(*a), layer_key(*b)),
{
    let (first, second) = (a.product_id.datetime, b.product_id.datetime);
    first < second || (first == second && before(
        a.product_id.path.as_str(),
        b.product_id.path.as_str(),
    ))
}

proof fn lemma_inserted_filter(
    items: Seq<PreparedProduct>,
    place: int,
    item: PreparedProduct,
    key: (i64, Seq<char>),
)
    requires
        0 <= place <= items.len(),
        forall|k: int| place <= k < items.len() ==> layer_key(#[trigger] items[k]) != layer_key(item),
    ensures
        items.insert(place, item).filter(has_layer_key(key)) == items.push(item).filter(
            has_layer_key(key),
        ),
{
    let keep = has_layer_key(key);
    let (left, right) = (items.take(place), items.skip(place));
    assert(items =~= left + right);
    assert(items.insert(place, item) =~= left + seq![item] + right);
    assert(items.push(item) =~= left + right + seq![item]);
    Seq::filter_distributes_over_add(left + seq![item], right, keep);
    Seq::filter_distributes_over_add(left, seq![item], keep);
    Seq::filter_distributes_over_add(left + right, seq![item], keep);
    Seq::filter_distributes_over_add(left, right, keep);
    let one = seq![item].filter(keep);
    let rest = right.filter(keep);
    if layer_key(item) == key {
        assert(rest.len() == 0) by {
            if rest.len() > 0 {
                lemma_kept_are_some(right, keep, 0);
                let k = choose|k: int| 0 <= k < right.len() && #[trigger] right[k] == rest[0];
                assert(layer_key(items[place + k]) != layer_key(item));
            }
        }
        assert(rest =~= Seq::empty());
        assert(left.filter(keep) + one + rest =~= left.filter(keep) + rest + one);
    } else {
        assert(one.len() == 0) by {
            if one.len() > 0 {
                lemma_kept_are_some(seq![item], keep, 0);
            }
        }
        assert(left.filter(keep) + one + rest =~= left.filter(keep) + rest + one);
    }
}

proof fn lemma_next_same(
    sorted: Seq<PreparedProduct>,
    all: Seq<PreparedProduct>,
    i: int,
    place: int,
)
    requires
        0 <= i < all.len(),
        0 <= place <= sorted.len(),
        same_products(sorted, all.take(i)),
        forall|k: int|
            place <= k < sorted.len() ==> layer_key(#[trigger] sorted[k]) != layer_key(all[i]),
    ensures
        same_products(sorted.insert(place, all[i]), all.take(i + 1)),
{
    let item = all[i];
    assert forall|key: (i64, Seq<char>)| #[trigger]
        sorted.insert(place, item).filter(has_layer_key(key)) == all.take(i + 1).filter(
            has_layer_key(key),
        ) by {
        lemma_inserted_filter(sorted, place, item, key);
        assert(all.take(i + 1) =~= all.take(i).push(item));
        assert(sorted.filter(has_layer_key(key)) == all.take(i).filter(has_layer_key(key)));
        reveal(Seq::filter);
        assert(sorted.push(item).drop_last() =~= sorted);
        assert(all.take(i).push(item).drop_last() =~= all.take(i));
    }
}

/// Puts products in the order of the layers. Products with one key keep their order.
pub fn sort_layers(products: Vec<PreparedProduct>) -> (sorted: Vec<PreparedProduct>)
    ensures
        in_layer_order(sorted@),
        same_products(sorted@, products@),
{
    let ghost all = products@;
    let mut rest = products;
    let mut sorted: Vec<PreparedProduct> = Vec::new();
    proof {
        assert(all.take(0) =~= sorted@);
        assert(all.skip(0) =~= all);
    }
    let count: usize = rest.len();
    for i in 0..count
        invariant
            count == all.len(),
            rest@ == all.skip(i as int),
            in_layer_order(sorted@),
            same_products(sorted@, all.take(i as int)),
    {
        let product = rest.remove(0);
        proof {
            assert(product == all[i as int]);
            assert(rest@ =~= all.skip(i as int + 1));
        }
        let mut place: usize = sorted.len();
        while place > 0 && belongs_before(&product, &sorted[place - 1])
            invariant
                place <= sorted@.len(),
                forall|k: int|
                    place <= k < sorted@.len() ==> key_before(
                        layer_key(product),
                        layer_key(#[trigger] sorted@[k]),
                    ),
            decreases place,
        {
            place = place - 1;
        }
        let ghost old_sorted = sorted@;
        proof {
            assert forall|k: int| place <= k < old_sorted.len() implies layer_key(
                #[trigger] old_sorted[k],
            ) != layer_key(all[i as int]) by {
                lemma_key_order(layer_key(product), layer_key(product), layer_key(product));
            }
            lemma_next_same(old_sorted, all, i as int, place as int);
        }
        sorted.insert(place, product);
        proof {
            let now = sorted@;
            assert forall|a: int, b: int| 0 <= a < b < now.len() implies !key_before(
                layer_key(#[trigger] now[b]),
                layer_key(#[trigger] now[a]),
            ) by {
                let item = layer_key(product);
                if a < place && b == place {
                    // The last one before the place does not belong behind the product.
                    let last = layer_key(old_sorted[place - 1]);
                    lemma_key_order(layer_key(old_sorted[a]), last, item);
                    if a < place - 1 {
                        assert(!key_before(last, layer_key(old_sorted[a])));
                    }
                } else if a == place {
                    lemma_key_order(item, layer_key(old_sorted[b - 1]), item);
                } else {
                    let x = if a < place {
                        a
                    } else {
                        a - 1
                    };
                    let y = if b < place {
                        b
                    } else {
                        b - 1
                    };
                    assert(now[a] == old_sorted[x] && now[b] == old_sorted[y]);
                }
            }
        }
    }
    proof {
        assert(all.take(all.len() as int) =~= all);
    }
    sorted
}

// ---------------------------------------------------------------------------
// Selection
// ---------------------------------------------------------------------------

/// The names that select the products.
pub open spec fn selectors(products: Seq<PreparedProduct>) -> Seq<Seq<char>> {
    products.map_values(|product: PreparedProduct| product.product_id.selector())
}

/// The names are those that select the products, each once and in order.
pub open spec fn are_choices(available: Seq<Seq<char>>, products: Seq<PreparedProduct>) -> bool {
    &&& in_text_order(available)
    &&& forall|name: Seq<char>| #[trigger]
        available.contains(name) <==> selectors(products).contains(name)
}

/// The layers are those products, in order; where their number is limited, the first ones.
pub open spec fn is_layering(
    result: Result<Seq<PreparedProduct>, ErrorView>,
    products: Seq<PreparedProduct>,
    layer_count: Option<usize>,
) -> bool {
    exists|sorted: Seq<PreparedProduct>|
        {
            &&& in_layer_order(sorted)
            &&& #[trigger] same_products(sorted, products)
            &&& result == Ok::<Seq<PreparedProduct>, ErrorView>(
                match layer_count {
                    Some(count) => sorted.take(
                        if count < sorted.len() {
                            count as int
                        } else {
                            sorted.len() as int
                        },
                    ),
                    None => sorted,
                },
            )
        }
}

/// The result is what is selected of the products.
pub open spec fn is_selection(
    result: Result<Seq<PreparedProduct>, ErrorView>,
    products: Seq<PreparedProduct>,
    requested: Option<Seq<char>>,
    layer_count: Option<usize>,
    skip_analysis: bool,
    min_lead_time: Option<i64>,
) -> bool {
    if products.len() == 0 {
        result == Err::<Seq<PreparedProduct>, ErrorView>(ErrorView::NoProducts)
    } else {
        exists|available: Seq<Seq<char>>|
            #[trigger] are_choices(available, products) && match selected_product(
                available,
                requested,
            ) {
                Err(error) => result == Err::<Seq<PreparedProduct>, ErrorView>(error),
                Ok(product) => match kept(
                    products,
                    Criteria { product, min_lead_time, skip_analysis },
                ) {
                    Err(error) => result == Err::<Seq<PreparedProduct>, ErrorView>(error),
                    Ok(layers) => is_layering(result, layers, layer_count),
                },
            }
    }
}

/// The outcome of a selection, in terms of views.
pub open spec fn selection_view(result: Result<Vec<PreparedProduct>, Error>) -> Result<
    Seq<PreparedProduct>,
    ErrorView,
> {
    match result {
        Ok(products) => Ok(products@),
        Err(error) => Err(error@),
    }
}

/// The names that select the products, each once and in order.
fn choices(products: &Vec<PreparedProduct>) -> (available: Vec<String>)
    ensures
        are_choices(texts(available@), products@),
        products@.len() > 0 ==> available@.len() > 0,
{
    let mut names: Vec<String> = Vec::new();
    for i in 0..products.len()
        invariant
            names@.len() == i,
            forall|k: int|
                0 <= k < i ==> (#[trigger] names@[k])@ == products@[k].product_id.selector(),
    {
        names.push(products[i].product_id.product_selector());
    }
    proof {
        assert(texts(names@) =~= selectors(products@));
    }
    let available = sorted_distinct(&names);
    proof {
        if products@.len() > 0 {
            assert(texts(names@).contains(texts(names@)[0]));
            assert(texts(available@).contains(texts(names@)[0]));
        }
    }
    available
}

/// Picks the products that become layers, in the order of the layers: those of one kind, far
/// enough ahead, without analyses where these are to be skipped, and no more than are wanted.
pub fn select_products(
    products: Vec<PreparedProduct>,
    requested_product: Option<&str>,
    layer_count: Option<usize>,
    skip_analysis: bool,
    min_lead_time: Option<i64>,
) -> (result: Result<Vec<PreparedProduct>, Error>)
    requires
        have_times(products@),
    ensures
        is_selection(
            selection_view(result),
            products@,
            requested_text(requested_product),
            layer_count,
            skip_analysis,
            min_lead_time,
        ),
{
    let ghost all = products@;
    if products.len() == 0 {
        return Err(Error::NoProducts);
    }
    let available = choices(&products);
    let ghost names = texts(available@);
    let selected = match resolve_product_selector(&available, requested_product) {
        Ok(selected) => selected,
        Err(error) => return Err(error),
    };
    let ghost criteria = Criteria { product: selected@, min_lead_time, skip_analysis };
    let mut layers = filtered(products, Step::Named(selected.as_str()));
    if let Some(minutes) = min_lead_time {
        layers = filtered(layers, Step::Ahead(minutes));
        if layers.len() == 0 {
            proof {
                assert(are_choices(names, all));
            }
            return Err(Error::NothingFarEnough { minutes, product: selected });
        }
    }
    if skip_analysis {
        layers = filtered(layers, Step::NoAnalysis);
        if layers.len() == 0 {
            proof {
                assert(are_choices(names, all));
            }
            return Err(Error::OnlyAnalyses { product: selected });
        }
    }
    let ghost remaining = layers@;
    proof {
        assert(are_choices(names, all));
        assert(kept(all, criteria) == Ok::<Seq<PreparedProduct>, ErrorView>(remaining));
    }
    let mut sorted = sort_layers(layers);
    let ghost whole = sorted@;
    if let Some(count) = layer_count {
        sorted.truncate(count);
    }
    proof {
        assert(same_products(whole, remaining));
        if let Some(count) = layer_count {
            assert(sorted@ =~= whole.take(
                if count < whole.len() {
                    count as int
                } else {
                    whole.len() as int
                },
            ));
        }
        assert(is_layering(Ok::<Seq<PreparedProduct>, ErrorView>(sorted@), remaining, layer_count));
    }
    Ok(sorted)
}

/// The number of layers is limited from above only: a selection never fails for want of products,
/// and gives as many layers as there are products, up to the limit.
pub proof fn law_the_limit_is_an_upper_one(
    result: Result<Seq<PreparedProduct>, ErrorView>,
    products: Seq<PreparedProduct>,
    count: usize,
)
    requires
        is_layering(result, products, Some(count)),
    ensures
        result is Ok,
        result->Ok_0.len() == (if count < products.len() {
            count as nat
        } else {
            products.len()
        }),
        in_layer_order(result->Ok_0),
{
}

/// Whatever is selected is what was asked for: every layer has the selected name, looks far enough
/// ahead, and is no analysis where those are skipped.
pub proof fn law_layers_are_as_asked(products: Seq<PreparedProduct>, criteria: Criteria, i: int)
    requires
        kept(products, criteria) is Ok,
        0 <= i < kept(products, criteria)->Ok_0.len(),
    ensures
        ({
            let product = kept(products, criteria)->Ok_0[i];
            &&& product.product_id.selector() == criteria.product
            &&& criteria.min_lead_time matches Some(minutes) ==> lead_minutes(product) >= minutes
            &&& criteria.skip_analysis ==> product.product_id.generating_process
                != GeneratingProcessType::Analysis
            &&& exists|k: int| 0 <= k < products.len() && #[trigger] products[k] == product
        }),
{
    let named = products.filter(is_named(criteria.product));
    let ahead = match criteria.min_lead_time {
        Some(minutes) => named.filter(is_ahead(minutes)),
        None => named,
    };
    let product = kept(products, criteria)->Ok_0[i];
    let j = if criteria.skip_analysis {
        lemma_kept_are_some(ahead, is_no_analysis(), i);
        choose|k: int| 0 <= k < ahead.len() && #[trigger] ahead[k] == product
    } else {
        i
    };
    let l = match criteria.min_lead_time {
        Some(minutes) => {
            lemma_kept_are_some(named, is_ahead(minutes), j);
            choose|k: int| 0 <= k < named.len() && #[trigger] named[k] == product
        },
        None => j,
    };
    lemma_kept_are_some(products, is_named(criteria.product), l);
}

// ---------------------------------------------------------------------------
// What a selection gives
// ---------------------------------------------------------------------------

/// The product looks at least so many whole minutes ahead.
pub open spec fn far_enough(product: PreparedProduct, minutes: i64) -> bool {
    let ahead = product.product_id.datetime - product.product_id.reference_datetime;
    if minutes > 0 {
        ahead >= 60 * minutes
    } else {
        ahead > 60 * (minutes - 1)
    }
}

/// The product has the name, looks far enough ahead, and is no analysis where those are skipped.
pub open spec fn is_wanted(
    product: PreparedProduct,
    name: Seq<char>,
    min_lead_time: Option<i64>,
    skip_analysis: bool,
) -> bool {
    &&& product.product_id.selector() == name
    &&& min_lead_time matches Some(minutes) ==> far_enough(product, minutes)
    &&& skip_analysis ==> product.product_id.generating_process != GeneratingProcessType::Analysis
}

/// The name is that of the product to convert: the one that is requested, or the only one.
pub open spec fn is_asked_for(
    name: Seq<char>,
    products: Seq<PreparedProduct>,
    requested: Option<Seq<char>>,
) -> bool {
    &&& selectors(products).contains(name)
    &&& match requested {
        Some(requested) => name == requested,
        None => forall|i: int|
            0 <= i < products.len() ==> (#[trigger] products[i]).product_id.selector() == name,
    }
}

/// The first product is about an earlier time than the second or, about the same time, has the
/// lesser path.
pub open spec fn is_earlier(a: PreparedProduct, b: PreparedProduct) -> bool {
    ||| a.product_id.datetime < b.product_id.datetime
    ||| a.product_id.datetime == b.product_id.datetime && precedes(
        a.product_id.path@,
        b.product_id.path@,
    )
}

/// No layer is earlier than the one.
pub open spec fn is_no_earlier(product: PreparedProduct, layers: Seq<PreparedProduct>) -> bool {
    forall|i: int| 0 <= i < layers.len() ==> !is_earlier(product, #[trigger] layers[i])
}

proof fn lemma_far_enough(product: PreparedProduct, minutes: i64)
    ensures
        far_enough(product, minutes) <==> lead_minutes(product) >= minutes,
{
    let ahead = product.product_id.datetime - product.product_id.reference_datetime;
    if ahead >= 0 {
        assert(60 * (ahead / 60) <= ahead < 60 * (ahead / 60) + 60);
    } else {
        let back = -ahead;
        assert(60 * (back / 60) <= back < 60 * (back / 60) + 60);
    }
}

proof fn lemma_kept_are_wanted(
    products: Seq<PreparedProduct>,
    criteria: Criteria,
    product: PreparedProduct,
)
    requires
        products.contains(product),
        is_wanted(product, criteria.product, criteria.min_lead_time, criteria.skip_analysis),
    ensures
        kept(products, criteria) matches Ok(layers) && layers.contains(product),
{
    let named = products.filter(is_named(criteria.product));
    let k = choose|k: int| 0 <= k < products.len() && products[k] == product;
    lemma_kept_has(products, is_named(criteria.product), k);
    let l = choose|l: int| 0 <= l < named.len() && #[trigger] named[l] == product;
    let ahead = match criteria.min_lead_time {
        Some(minutes) => named.filter(is_ahead(minutes)),
        None => named,
    };
    let m = match criteria.min_lead_time {
        Some(minutes) => {
            lemma_far_enough(product, minutes);
            lemma_kept_has(named, is_ahead(minutes), l);
            choose|m: int| 0 <= m < ahead.len() && #[trigger] ahead[m] == product
        },
        None => l,
    };
    assert(ahead[m] == product);
    if criteria.skip_analysis {
        lemma_kept_has(ahead, is_no_analysis(), m);
        let n = choose|n: int|
            0 <= n < ahead.filter(is_no_analysis()).len() && #[trigger] ahead.filter(
                is_no_analysis(),
            )[n] == product;
        assert(ahead.filter(is_no_analysis())[n] == product);
    }
}

proof fn lemma_same_products(
    a: Seq<PreparedProduct>,
    b: Seq<PreparedProduct>,
    product: PreparedProduct,
)
    requires
        same_products(a, b),
        a.contains(product),
    ensures
        b.contains(product),
{
    let keep = has_layer_key(layer_key(product));
    let k = choose|k: int| 0 <= k < a.len() && a[k] == product;
    lemma_kept_has(a, keep, k);
    let i = choose|i: int| 0 <= i < a.filter(keep).len() && #[trigger] a.filter(keep)[i] == a[k];
    assert(a.filter(keep) == b.filter(keep));
    lemma_kept_are_some(b, keep, i);
    let l = choose|l: int| 0 <= l < b.len() && #[trigger] b[l] == b.filter(keep)[i];
    assert(b[l] == product);
}

/// The layers are the wanted products with a name, from the earliest on: all of them, unless their
/// number is limited, and then none of the others is earlier than a layer.
pub open spec fn are_layers(
    layers: Seq<PreparedProduct>,
    products: Seq<PreparedProduct>,
    name: Seq<char>,
    layer_count: Option<usize>,
    skip_analysis: bool,
    min_lead_time: Option<i64>,
) -> bool {
    &&& forall|i: int|
        0 <= i < layers.len() ==> products.contains(#[trigger] layers[i]) && is_wanted(
            layers[i],
            name,
            min_lead_time,
            skip_analysis,
        )
    &&& forall|i: int, j: int|
        0 <= i < j < layers.len() ==> !is_earlier(#[trigger] layers[j], #[trigger] layers[i])
    &&& layer_count matches Some(count) ==> layers.len() <= count
    &&& forall|k: int|
        0 <= k < products.len() && is_wanted(
            #[trigger] products[k],
            name,
            min_lead_time,
            skip_analysis,
        ) ==> layers.contains(products[k]) || layer_count == Some(layers.len() as usize)
            && is_no_earlier(products[k], layers)
}

/// A selection gives, in order, the wanted products of the name that is asked for.
pub proof fn law_a_selection_gives_what_is_asked_for(
    layers: Seq<PreparedProduct>,
    products: Seq<PreparedProduct>,
    requested: Option<Seq<char>>,
    layer_count: Option<usize>,
    skip_analysis: bool,
    min_lead_time: Option<i64>,
)
    requires
        is_selection(
            Ok::<Seq<PreparedProduct>, ErrorView>(layers),
            products,
            requested,
            layer_count,
            skip_analysis,
            min_lead_time,
        ),
    ensures
        exists|name: Seq<char>|
            #[trigger] is_asked_for(name, products, requested) && are_layers(
                layers,
                products,
                name,
                layer_count,
                skip_analysis,
                min_lead_time,
            ),
{
    let result = Ok::<Seq<PreparedProduct>, ErrorView>(layers);
    let available = choose|available: Seq<Seq<char>>|
        #[trigger] are_choices(available, products) && match selected_product(
            available,
            requested,
        ) {
            Err(error) => result == Err::<Seq<PreparedProduct>, ErrorView>(error),
            Ok(product) => match kept(
                products,
                Criteria { product, min_lead_time, skip_analysis },
            ) {
                Err(error) => result == Err::<Seq<PreparedProduct>, ErrorView>(error),
                Ok(layers) => is_layering(result, layers, layer_count),
            },
        };
    let name = selected_product(available, requested)->Ok_0;
    lemma_asked_for(available, products, requested);
    let criteria = Criteria { product: name, min_lead_time, skip_analysis };
    let all = kept(products, criteria)->Ok_0;
    let sorted = choose|sorted: Seq<PreparedProduct>|
        {
            &&& in_layer_order(sorted)
            &&& #[trigger] same_products(sorted, all)
            &&& result == Ok::<Seq<PreparedProduct>, ErrorView>(
                match layer_count {
                    Some(count) => sorted.take(
                        if count < sorted.len() {
                            count as int
                        } else {
                            sorted.len() as int
                        },
                    ),
                    None => sorted,
                },
            )
        };
    assert(same_products(all, sorted)) by {
        assert forall|key: (i64, Seq<char>)| #[trigger]
            all.filter(has_layer_key(key)) == sorted.filter(has_layer_key(key)) by {
            assert(sorted.filter(has_layer_key(key)) == all.filter(has_layer_key(key)));
        }
    }
    assert forall|i: int| 0 <= i < layers.len() implies products.contains(#[trigger] layers[i])
        && is_wanted(layers[i], name, min_lead_time, skip_analysis) by {
        assert(layers[i] == sorted[i]);
        assert(sorted.contains(sorted[i]));
        lemma_same_products(sorted, all, sorted[i]);
        let k = choose|k: int| 0 <= k < all.len() && all[k] == sorted[i];
        law_layers_are_as_asked(products, criteria, k);
        if let Some(minutes) = min_lead_time {
            lemma_far_enough(layers[i], minutes);
        }
    }
    assert forall|i: int, j: int| 0 <= i < j < layers.len() implies !is_earlier(
        #[trigger] layers[j],
        #[trigger] layers[i],
    ) by {
        assert(layers[i] == sorted[i] && layers[j] == sorted[j]);
        assert(!key_before(layer_key(sorted[j]), layer_key(sorted[i])));
    }
    assert forall|k: int|
        0 <= k < products.len() && is_wanted(
            #[trigger] products[k],
            name,
            min_lead_time,
            skip_analysis,
        ) implies layers.contains(products[k]) || layer_count == Some(layers.len() as usize)
        && is_no_earlier(products[k], layers) by {
        assert(products.contains(products[k]));
        lemma_kept_are_wanted(products, criteria, products[k]);
        lemma_same_products(all, sorted, products[k]);
        let s = choose|s: int| 0 <= s < sorted.len() && sorted[s] == products[k];
        if s < layers.len() {
            assert(layers[s] == products[k]);
        } else {
            assert forall|i: int| 0 <= i < layers.len() implies !is_earlier(
                products[k],
                #[trigger] layers[i],
            ) by {
                assert(layers[i] == sorted[i]);
                assert(!key_before(layer_key(sorted[s]), layer_key(sorted[i])));
            }
        }
    }
    assert(is_asked_for(name, products, requested));
}

proof fn lemma_asked_for(
    available: Seq<Seq<char>>,
    products: Seq<PreparedProduct>,
    requested: Option<Seq<char>>,
)
    requires
        are_choices(available, products),
        products.len() > 0,
    ensures
        match selected_product(available, requested) {
            Ok(name) => is_asked_for(name, products, requested),
            Err(error) => match requested {
                Some(requested) => !selectors(products).contains(requested) && error
                    == (ErrorView::ProductNotPresent { requested, available }),
                None => have_several_names(products) && error == (ErrorView::SeveralProducts {
                    available,
                }),
            },
        },
{
    let all = selectors(products);
    assert(all[0] == products[0].product_id.selector());
    assert(all.contains(all[0]));
    assert(available.contains(all[0]));
    if requested is None {
        if available.len() == 1 {
            let name = available[0];
            assert(available.contains(name));
            assert forall|i: int| 0 <= i < products.len() implies (
            #[trigger] products[i]).product_id.selector() == name by {
                assert(all[i] == products[i].product_id.selector());
                assert(all.contains(all[i]));
                assert(available.contains(all[i]));
            }
        } else {
            let k = choose|k: int| 0 <= k < available.len() && available[k] == all[0];
            let other = if k == 0 {
                available[1]
            } else {
                available[0]
            };
            assert(precedes(available[0], available[1]) && (k > 0 ==> precedes(
                available[0],
                available[k],
            )));
            lemma_precedes_irreflexive(all[0]);
            assert(other != all[0]);
            assert(available.contains(other));
            assert(all.contains(other));
            let j = choose|j: int| 0 <= j < all.len() && all[j] == other;
            assert(products[j].product_id.selector() != products[0].product_id.selector());
        }
    }
}

/// Two of the products have different names.
pub open spec fn have_several_names(products: Seq<PreparedProduct>) -> bool {
    exists|i: int, j: int|
        {
            &&& 0 <= i < products.len()
            &&& 0 <= j < products.len()
            &&& (#[trigger] products[i]).product_id.selector() != (
            #[trigger] products[j]).product_id.selector()
        }
}

/// No product is wanted.
pub open spec fn none_is_wanted(
    products: Seq<PreparedProduct>,
    name: Seq<char>,
    min_lead_time: Option<i64>,
    skip_analysis: bool,
) -> bool {
    forall|k: int|
        0 <= k < products.len() ==> !is_wanted(
            #[trigger] products[k],
            name,
            min_lead_time,
            skip_analysis,
        )
}

/// A selection fails only where there is nothing to select, with the error that says so: no
/// products at all, none with the requested name, several names and none requested, or none of the
/// name far enough ahead or other than an analysis.
pub proof fn law_a_selection_fails_for_a_reason(
    error: ErrorView,
    products: Seq<PreparedProduct>,
    requested: Option<Seq<char>>,
    layer_count: Option<usize>,
    skip_analysis: bool,
    min_lead_time: Option<i64>,
)
    requires
        is_selection(
            Err::<Seq<PreparedProduct>, ErrorView>(error),
            products,
            requested,
            layer_count,
            skip_analysis,
            min_lead_time,
        ),
    ensures
        match error {
            ErrorView::NoProducts => products.len() == 0,
            ErrorView::ProductNotPresent { requested: name, available } => requested == Some(name)
                && !selectors(products).contains(name) && are_choices(available, products),
            ErrorView::SeveralProducts { available } => requested is None && have_several_names(
                products,
            ) && are_choices(available, products),
            ErrorView::NothingFarEnough { minutes, product } => min_lead_time == Some(minutes)
                && is_asked_for(product, products, requested) && none_is_wanted(
                products,
                product,
                min_lead_time,
                false,
            ),
            ErrorView::OnlyAnalyses { product } => skip_analysis && is_asked_for(
                product,
                products,
                requested,
            ) && none_is_wanted(products, product, min_lead_time, true),
            _ => false,
        },
{
    let result = Err::<Seq<PreparedProduct>, ErrorView>(error);
    if products.len() > 0 {
        let available = choose|available: Seq<Seq<char>>|
            #[trigger] are_choices(available, products) && match selected_product(
                available,
                requested,
            ) {
                Err(error) => result == Err::<Seq<PreparedProduct>, ErrorView>(error),
                Ok(product) => match kept(
                    products,
                    Criteria { product, min_lead_time, skip_analysis },
                ) {
                    Err(error) => result == Err::<Seq<PreparedProduct>, ErrorView>(error),
                    Ok(layers) => is_layering(result, layers, layer_count),
                },
            };
        lemma_asked_for(available, products, requested);
        if let Ok(name) = selected_product(available, requested) {
            let criteria = Criteria { product: name, min_lead_time, skip_analysis };
            let loose = Criteria { product: name, min_lead_time, skip_analysis: false };
            if error is NothingFarEnough {
                assert forall|k: int| 0 <= k < products.len() implies !is_wanted(
                    #[trigger] products[k],
                    name,
                    min_lead_time,
                    false,
                ) by {
                    if is_wanted(products[k], name, min_lead_time, false) {
                        assert(products.contains(products[k]));
                        lemma_kept_are_wanted(products, loose, products[k]);
                    }
                }
            } else {
                assert forall|k: int| 0 <= k < products.len() implies !is_wanted(
                    #[trigger] products[k],
                    name,
                    min_lead_time,
                    true,
                ) by {
                    if is_wanted(products[k], name, min_lead_time, true) {
                        assert(products.contains(products[k]));
                        lemma_kept_are_wanted(products, criteria, products[k]);
                    }
                }
            }
        }
    }
}

} // verus!
