//! The settings of language models, and what the reader says of a book.
use vstd::prelude::*;
use vstd::string::*;

use crate::agent::LlmConfig;
use crate::config::{
    bare_model, explicit_price, preset_price, LlmProvider, LlmSettings, ModelPricing,
};
use crate::db::{with_book, BookView, Catalog, LlmUsageRow};
use crate::libraries::copy_opt;
use crate::spider::{add_all_new, union_is_distinct, with_all_new};
use crate::text::{
    blank, clone_strings, has_string, is_blank, opt_str, same, strs, trim, trimmed,
};
use crate::utils::{tidied, tidy};

verus! {

/// Whether a model can be called, as it is shown.
#[derive(Debug)]
pub struct LlmStatusDto {
    pub configured: bool,
    pub model: Option<String>,
}

/// A provider of models, as it is shown and edited.
#[derive(Debug)]
pub struct LlmProviderDto {
    pub name: String,
    pub base_url: String,
    pub api_key: String,
    pub models: Vec<String>,
}

/// The settings of models, as they are shown and edited.
#[derive(Debug)]
pub struct LlmSettingsDto {
    pub providers: Vec<LlmProviderDto>,
    pub default_provider: Option<String>,
    pub default_model: Option<String>,
    pub retry_count: Option<u32>,
    /// How many tokens may be used; nothing, or none, where there is no limit.
    pub budget_tokens: Option<i64>,
    /// The prices that are set.
    pub pricing: Vec<ModelPricing>,
}

/// What the tokens of a model cost.
#[derive(Debug)]
pub struct ModelCost {
    pub model: String,
    /// The price of the input and of the output: one that is set, else a built-in one.
    pub price: Option<(u64, u64)>,
    /// Tokens times price: in units of a thousandth of a millionth.
    pub cost: Option<u128>,
}

/// The settings page.
#[derive(Debug)]
pub struct SettingsDto {
    pub llm: LlmSettingsDto,
    /// The tokens that each model took.
    pub usage: Vec<LlmUsageRow>,
    /// What they cost, for each of them.
    pub costs: Vec<ModelCost>,
    /// What they cost together; nothing where that is too large a number.
    pub total_cost: Option<u128>,
}

/// Whether a model can be called.
pub fn llm_status(config: &Option<LlmConfig>) -> (r: LlmStatusDto)
    ensures
        match *config {
            Some(c) => r.configured && r.model == Some(c.model),
            None => !r.configured && r.model is None,
        },
{
    match config {
        Some(c) => LlmStatusDto { configured: true, model: Some(c.model.clone()) },
        None => LlmStatusDto { configured: false, model: None },
    }
}

/// A provider of models.
#[verifier::ext_equal]
pub struct ProviderView {
    pub name: Seq<char>,
    pub base_url: Seq<char>,
    pub api_key: Seq<char>,
    pub models: Seq<Seq<char>>,
}

/// What a provider is.
pub open spec fn provider_view(p: LlmProvider) -> ProviderView {
    ProviderView {
        name: p.name@,
        base_url: p.base_url@,
        api_key: p.api_key@,
        models: strs(p.models@),
    }
}

/// What the providers are.
pub open spec fn provider_views(v: Seq<LlmProvider>) -> Seq<ProviderView> {
    v.map_values(|p: LlmProvider| provider_view(p))
}

/// Whether `d` shows `p`.
pub open spec fn shows_provider(d: LlmProviderDto, p: LlmProvider) -> bool {
    d.name == p.name && d.base_url == p.base_url && d.api_key == p.api_key && d.models@
        == p.models@
}

// ---- prices ----

/// The price of the input and of the output of a model: one that is set, else a built-in one.
pub open spec fn price_of(llm: LlmSettings, model: Seq<char>) -> Option<(u64, u64)> {
    match explicit_price(llm.pricing@, model) {
        Some(p) => Some(p),
        None => preset_price(bare_model(model)),
    }
}

/// A number of tokens; there are never fewer than none.
pub open spec fn tokens(n: i64) -> nat {
    if n < 0 {
        0
    } else {
        n as nat
    }
}

/// What the tokens of a model cost at a price.
pub open spec fn cost_at(u: LlmUsageRow, price: (u64, u64)) -> nat {
    tokens(u.prompt_tokens) * (price.0 as nat) + tokens(u.completion_tokens) * (price.1 as nat)
}

/// Whether `c` is what the tokens of a model cost.
pub open spec fn is_cost(llm: LlmSettings, u: LlmUsageRow, c: ModelCost) -> bool {
    &&& c.model == u.model
    &&& c.price == price_of(llm, u.model@)
    &&& match c.price {
        Some(p) => c.cost matches Some(n) && n == cost_at(u, p),
        None => c.cost is None,
    }
}

fn token_count(n: i64) -> (r: u64)
    ensures
        r == tokens(n),
        r <= i64::MAX,
{
    if n < 0 {
        0
    } else {
        n as u64
    }
}

fn priced(count: u64, price: u64) -> (r: u128)
    requires
        count <= i64::MAX,
    ensures
        r == (count as nat) * (price as nat),
        r <= 0x7fff_ffff_ffff_ffff * 0xffff_ffff_ffff_ffff,
{
    assert((count as int) * (price as int) <= 0x7fff_ffff_ffff_ffff * 0xffff_ffff_ffff_ffff)
        by (nonlinear_arith)
        requires
            count <= 0x7fff_ffff_ffff_ffff,
            price <= 0xffff_ffff_ffff_ffff,
    ;
    (count as u128) * (price as u128)
}

/// What the tokens of a model cost.
pub fn model_cost(llm: &LlmSettings, u: &LlmUsageRow) -> (r: ModelCost)
    ensures
        is_cost(*llm, *u, r),
{
    let price = llm.price_for(&u.model);
    let cost = match price {
        Some(p) => {
            let input: u128 = priced(token_count(u.prompt_tokens), p.0);
            let output: u128 = priced(token_count(u.completion_tokens), p.1);
            Some(input + output)
        },
        None => None,
    };
    ModelCost { model: u.model.clone(), price, cost }
}

/// What all of it costs.
pub open spec fn cost_of_all(v: Seq<ModelCost>) -> nat
    decreases v.len(),
{
    if v.len() == 0 {
        0
    } else {
        cost_of_all(v.drop_last()) + (match v.last().cost {
            Some(n) => n as nat,
            None => 0,
        })
    }
}

proof fn costs_add_up(v: Seq<ModelCost>, n: int)
    requires
        0 <= n <= v.len(),
    ensures
        cost_of_all(v.take(n)) <= cost_of_all(v),
    decreases v.len(),
{
    if n == v.len() {
        assert(v.take(n) =~= v);
    } else {
        assert(v.drop_last().take(n) =~= v.take(n));
        costs_add_up(v.drop_last(), n);
    }
}

/// What all of it costs; nothing where that is too large a number.
pub fn total_cost(costs: &Vec<ModelCost>) -> (r: Option<u128>)
    ensures
        match r {
            Some(n) => n == cost_of_all(costs@),
            None => cost_of_all(costs@) > u128::MAX,
        },
{
    let mut total: u128 = 0;
    let mut i: usize = 0;
    assert(costs@.take(0) =~= Seq::<ModelCost>::empty());
    while i < costs.len()
        invariant
            i <= costs@.len(),
            total == cost_of_all(costs@.take(i as int)),
        decreases costs@.len() - i,
    {
        proof {
            assert(costs@.take(i + 1).drop_last() =~= costs@.take(i as int));
            costs_add_up(costs@, i + 1);
        }
        let n: u128 = match costs[i].cost {
            Some(n) => n,
            None => 0,
        };
        match total.checked_add(n) {
            Some(t) => {
                total = t;
            },
            None => {
                return None;
            },
        }
        i += 1;
    }
    assert(costs@.take(costs@.len() as int) =~= costs@);
    Some(total)
}

fn copy_pricing(v: &Vec<ModelPricing>) -> (r: Vec<ModelPricing>)
    ensures
        r@ == v@,
{
    let mut r: Vec<ModelPricing> = Vec::new();
    let mut i: usize = 0;
    while i < v.len()
        invariant
            i <= v@.len(),
            r@ == v@.take(i as int),
        decreases v@.len() - i,
    {
        r.push(
            ModelPricing {
                model: v[i].model.clone(),
                input_per_m: v[i].input_per_m,
                output_per_m: v[i].output_per_m,
            },
        );
        assert(r@ =~= v@.take(i + 1));
        i += 1;
    }
    assert(v@.take(v@.len() as int) =~= v@);
    r
}

/// The settings page.
pub fn get_settings(llm: &LlmSettings, usage: Vec<LlmUsageRow>) -> (r: SettingsDto)
    ensures
        r.usage == usage,
        r.llm.budget_tokens == llm.budget_tokens,
        r.llm.pricing@ == llm.pricing@,
        r.costs@.len() == usage@.len(),
        forall|i: int| 0 <= i < r.costs@.len() ==> is_cost(*llm, usage@[i], #[trigger] r.costs@[i]),
        match r.total_cost {
            Some(n) => n == cost_of_all(r.costs@),
            None => cost_of_all(r.costs@) > u128::MAX,
        },
        r.llm.default_provider == llm.default_provider,
        r.llm.default_model == llm.default_model,
        r.llm.retry_count == llm.retry_count,
        r.llm.providers@.len() == llm.providers@.len(),
        forall|i: int|
            0 <= i < r.llm.providers@.len() ==> shows_provider(
                #[trigger] r.llm.providers@[i],
                llm.providers@[i],
            ),
{
    let mut providers: Vec<LlmProviderDto> = Vec::new();
    let mut i: usize = 0;
    while i < llm.providers.len()
        invariant
            i <= llm.providers@.len(),
            providers@.len() == i,
            forall|k: int|
                0 <= k < i ==> shows_provider(#[trigger] providers@[k], llm.providers@[k]),
        decreases llm.providers@.len() - i,
    {
        let p = &llm.providers[i];
        providers.push(
            LlmProviderDto {
                name: p.name.clone(),
                base_url: p.base_url.clone(),
                api_key: p.api_key.clone(),
                models: clone_strings(&p.models),
            },
        );
        i += 1;
    }
    let mut costs: Vec<ModelCost> = Vec::new();
    let mut k: usize = 0;
    while k < usage.len()
        invariant
            k <= usage@.len(),
            costs@.len() == k,
            forall|j: int| 0 <= j < k ==> is_cost(*llm, usage@[j], #[trigger] costs@[j]),
        decreases usage@.len() - k,
    {
        costs.push(model_cost(llm, &usage[k]));
        k += 1;
    }
    let total = total_cost(&costs);
    SettingsDto {
        llm: LlmSettingsDto {
            providers,
            default_provider: copy_opt(&llm.default_provider),
            default_model: copy_opt(&llm.default_model),
            retry_count: llm.retry_count,
            budget_tokens: llm.budget_tokens,
            pricing: copy_pricing(&llm.pricing),
        },
        usage,
        costs,
        total_cost: total,
    }
}

// ---- saving ----

/// Whether one of the providers has the name.
pub open spec fn has_name(v: Seq<ProviderView>, name: Seq<char>) -> bool {
    exists|i: int| 0 <= i < v.len() && (#[trigger] v[i]).name == name
}

/// A provider as it was edited: without white space, each model once.
pub open spec fn edited_provider(d: LlmProviderDto) -> ProviderView {
    ProviderView {
        name: trim(d.name@),
        base_url: trim(d.base_url@),
        api_key: trim(d.api_key@),
        models: with_all_new(Seq::empty(), tidy(strs(d.models@))),
    }
}

/// The providers as they were edited, without those that have no name; a name that occurs
/// twice is the error.
pub open spec fn edited_providers(v: Seq<LlmProviderDto>) -> Result<Seq<ProviderView>, Seq<char>>
    decreases v.len(),
{
    if v.len() == 0 {
        Ok(Seq::empty())
    } else {
        match edited_providers(v.drop_last()) {
            Err(e) => Err(e),
            Ok(before) => if is_blank(v.last().name@) {
                Ok(before)
            } else if has_name(before, trim(v.last().name@)) {
                Err("服务商名称重复:「"@ + trim(v.last().name@) + "」"@)
            } else {
                Ok(before.push(edited_provider(v.last())))
            },
        }
    }
}

proof fn an_error_stays(v: Seq<LlmProviderDto>, n: int)
    requires
        0 <= n <= v.len(),
        edited_providers(v.take(n)) is Err,
    ensures
        edited_providers(v) == edited_providers(v.take(n)),
    decreases v.len(),
{
    if n == v.len() {
        assert(v.take(n) =~= v);
    } else {
        assert(v.drop_last().take(n) =~= v.take(n));
        an_error_stays(v.drop_last(), n);
    }
}

fn provider_named(v: &Vec<LlmProvider>, name: &str) -> (r: Option<usize>)
    ensures
        match r {
            Some(i) => {
                &&& i < v@.len()
                &&& v@[i as int].name@ == name@
                &&& has_name(provider_views(v@), name@)
                &&& models_under(provider_views(v@), name@) == strs(v@[i as int].models@)
            },
            None => !has_name(provider_views(v@), name@) && models_under(
                provider_views(v@),
                name@,
            ) == Seq::<Seq<char>>::empty(),
        },
{
    let ghost all = provider_views(v@);
    let mut i: usize = 0;
    assert(all.skip(0) =~= all);
    while i < v.len()
        invariant
            i <= v@.len(),
            all == provider_views(v@),
            forall|k: int| 0 <= k < i ==> (#[trigger] all[k]).name != name@,
            models_under(all, name@) == models_under(all.skip(i as int), name@),
        decreases v@.len() - i,
    {
        proof {
            assert(all[i as int] == provider_view(v@[i as int]));
            assert(all.skip(i as int)[0] == all[i as int]);
            assert(all.skip(i as int).drop_first() =~= all.skip(i + 1));
        }
        if same(&v[i].name, name) {
            return Some(i);
        }
        i += 1;
    }
    None
}

/// The models of the first provider with the name.
pub open spec fn models_under(v: Seq<ProviderView>, name: Seq<char>) -> Seq<Seq<char>>
    decreases v.len(),
{
    if v.len() == 0 {
        Seq::empty()
    } else if v[0].name == name {
        v[0].models
    } else {
        models_under(v.drop_first(), name)
    }
}

fn edit_provider(d: &LlmProviderDto) -> (r: LlmProvider)
    ensures
        provider_view(r) == edited_provider(*d),
{
    let mut models: Vec<String> = Vec::new();
    assert(strs(models@) =~= Seq::<Seq<char>>::empty());
    add_all_new(&mut models, &tidied(&d.models));
    LlmProvider {
        name: trimmed(&d.name),
        base_url: trimmed(&d.base_url),
        api_key: trimmed(&d.api_key),
        models,
    }
}

/// Whether a provider is wanted that is none of the list.
pub open spec fn wants_unknown(v: Seq<ProviderView>, wanted: Option<Seq<char>>) -> bool {
    wanted is Some && !is_blank(wanted->0) && !has_name(v, trim(wanted->0))
}

/// The provider that is called by default: the one that is wanted, else the first.
pub open spec fn default_provider_of(v: Seq<ProviderView>, wanted: Option<Seq<char>>) -> Option<
    Seq<char>,
> {
    if wanted is Some && !is_blank(wanted->0) {
        Some(trim(wanted->0))
    } else if v.len() > 0 {
        Some(v[0].name)
    } else {
        None
    }
}

/// The model that is called by default: the one that is wanted, where the provider has it,
/// else the provider's first.
pub open spec fn default_model_of(models: Seq<Seq<char>>, wanted: Option<Seq<char>>) -> Option<
    Seq<char>,
> {
    if wanted is Some && !is_blank(wanted->0) && models.contains(trim(wanted->0)) {
        Some(trim(wanted->0))
    } else if models.len() > 0 {
        Some(models[0])
    } else {
        None
    }
}

/// The models of the provider that is called by default.
pub open spec fn default_models(v: Seq<ProviderView>, provider: Option<Seq<char>>) -> Seq<Seq<char>> {
    match provider {
        Some(n) => models_under(v, n),
        None => Seq::empty(),
    }
}

/// A price of a model.
pub struct PriceView {
    pub model: Seq<char>,
    pub input_per_m: u64,
    pub output_per_m: u64,
}

/// What the prices are.
pub open spec fn price_views(v: Seq<ModelPricing>) -> Seq<PriceView> {
    v.map_values(
        |p: ModelPricing|
            PriceView {
                model: p.model@,
                input_per_m: p.input_per_m,
                output_per_m: p.output_per_m,
            },
    )
}

/// Whether one of the prices is of the model.
pub open spec fn has_price(v: Seq<PriceView>, model: Seq<char>) -> bool {
    exists|i: int| 0 <= i < v.len() && (#[trigger] v[i]).model == model
}

/// The prices as they were edited: the first of each model that has a name.
pub open spec fn edited_prices(v: Seq<ModelPricing>) -> Seq<PriceView>
    decreases v.len(),
{
    if v.len() == 0 {
        Seq::empty()
    } else {
        let before = edited_prices(v.drop_last());
        if is_blank(v.last().model@) || has_price(before, trim(v.last().model@)) {
            before
        } else {
            before.push(
                PriceView {
                    model: trim(v.last().model@),
                    input_per_m: v.last().input_per_m,
                    output_per_m: v.last().output_per_m,
                },
            )
        }
    }
}

fn edit_prices(v: &Vec<ModelPricing>) -> (r: Vec<ModelPricing>)
    ensures
        price_views(r@) == edited_prices(v@),
{
    let mut r: Vec<ModelPricing> = Vec::new();
    let mut i: usize = 0;
    assert(v@.take(0) =~= Seq::<ModelPricing>::empty());
    assert(price_views(r@) =~= Seq::<PriceView>::empty());
    while i < v.len()
        invariant
            i <= v@.len(),
            price_views(r@) == edited_prices(v@.take(i as int)),
        decreases v@.len() - i,
    {
        assert(v@.take(i + 1).drop_last() =~= v@.take(i as int));
        if !blank(&v[i].model) {
            let model = trimmed(&v[i].model);
            let mut known = false;
            let mut k: usize = 0;
            while k < r.len()
                invariant
                    k <= r@.len(),
                    known == (exists|j: int|
                        0 <= j < k && (#[trigger] price_views(r@)[j]).model == model@),
                decreases r@.len() - k,
            {
                assert(price_views(r@)[k as int].model == r@[k as int].model@);
                if same(&r[k].model, &model) {
                    known = true;
                }
                k += 1;
            }
            if !known {
                let ghost was = r@;
                r.push(
                    ModelPricing {
                        model,
                        input_per_m: v[i].input_per_m,
                        output_per_m: v[i].output_per_m,
                    },
                );
                assert(price_views(r@) =~= price_views(was).push(
                    PriceView {
                        model: model@,
                        input_per_m: v@[i as int].input_per_m,
                        output_per_m: v@[i as int].output_per_m,
                    },
                ));
            }
        }
        i += 1;
    }
    assert(v@.take(v@.len() as int) =~= v@);
    r
}

/// Whether `s` is what was edited in `d`.
pub open spec fn settings_saved(s: LlmSettings, d: LlmSettingsDto, v: Seq<ProviderView>) -> bool {
    let provider = default_provider_of(v, opt_str(d.default_provider));
    &&& !wants_unknown(v, opt_str(d.default_provider))
    &&& provider_views(s.providers@) == v
    &&& opt_str(s.default_provider) == provider
    &&& opt_str(s.default_model) == default_model_of(
        default_models(v, provider),
        opt_str(d.default_model),
    )
    &&& s.retry_count == (match d.retry_count {
        Some(n) => Some(
            if n < 10 {
                n
            } else {
                10
            },
        ),
        None => None,
    })
    &&& s.budget_tokens == d.budget_tokens
    &&& price_views(s.pricing@) == edited_prices(d.pricing@)
    &&& s.base_url is None
    &&& s.api_key is None
    &&& s.models@.len() == 0
}

/// Keeps the settings of models as they were edited. Two providers of one name, and a default
/// provider that is none of them, are refused.
pub fn save_settings(llm: &mut LlmSettings, d: &LlmSettingsDto) -> (r: Result<(), String>)
    ensures
        match r {
            Ok(_) => edited_providers(d.providers@) matches Ok(v) && settings_saved(
                *final(llm),
                *d,
                v,
            ),
            Err(e) => {
                &&& *final(llm) == *old(llm)
                &&& match edited_providers(d.providers@) {
                    Ok(v) => wants_unknown(v, opt_str(d.default_provider)) && e@
                        == "默认服务商不存在:「"@ + trim(d.default_provider->0@) + "」"@,
                    Err(m) => e@ == m,
                }
            },
        },
{
    let ghost all = d.providers@;
    let mut providers: Vec<LlmProvider> = Vec::new();
    let mut i: usize = 0;
    assert(all.take(0) =~= Seq::<LlmProviderDto>::empty());
    assert(provider_views(providers@) =~= Seq::<ProviderView>::empty());
    while i < d.providers.len()
        invariant
            i <= d.providers@.len(),
            all == d.providers@,
            *llm == *old(llm),
            edited_providers(all.take(i as int)) == Ok::<Seq<ProviderView>, Seq<char>>(
                provider_views(providers@),
            ),
        decreases d.providers@.len() - i,
    {
        proof {
            assert(all.take(i + 1).drop_last() =~= all.take(i as int));
            assert(all.take(i + 1).last() == d.providers@[i as int]);
        }
        let p = &d.providers[i];
        if !blank(&p.name) {
            let name = trimmed(&p.name);
            match provider_named(&providers, &name) {
                Some(_) => {
                    proof {
                        an_error_stays(all, i + 1);
                    }
                    return Err("服务商名称重复:「".to_owned().concat(&name).concat("」"));
                },
                None => {},
            }
            let ghost was = providers@;
            let edited = edit_provider(p);
            providers.push(edited);
            assert(provider_views(providers@) =~= provider_views(was).push(
                provider_view(edited),
            ));
        }
        i += 1;
    }
    assert(all.take(d.providers@.len() as int) =~= all);
    let ghost v = provider_views(providers@);
    let wanted = match &d.default_provider {
        Some(w) => if blank(w) {
            None
        } else {
            let w = trimmed(w);
            match provider_named(&providers, &w) {
                Some(_) => Some(w),
                None => {
                    return Err("默认服务商不存在:「".to_owned().concat(&w).concat("」"));
                },
            }
        },
        None => None,
    };
    let default_provider = match wanted {
        Some(w) => Some(w),
        None => if providers.len() > 0 {
            assert(v[0] == provider_view(providers@[0]));
            Some(providers[0].name.as_str().to_owned())
        } else {
            None
        },
    };
    assert(v.len() == providers@.len());
    assert(opt_str(default_provider) == default_provider_of(v, opt_str(d.default_provider)));
    let models = match &default_provider {
        Some(n) => match provider_named(&providers, n) {
            Some(k) => clone_strings(&providers[k].models),
            None => Vec::new(),
        },
        None => Vec::new(),
    };
    assert(strs(models@) =~= default_models(v, opt_str(default_provider)));
    let wanted_model = match &d.default_model {
        Some(m) => if blank(m) {
            None
        } else {
            let m = trimmed(m);
            if has_string(&models, &m) {
                Some(m)
            } else {
                None
            }
        },
        None => None,
    };
    let default_model = match wanted_model {
        Some(m) => Some(m),
        None => if models.len() > 0 {
            assert(strs(models@)[0] == models@[0]@);
            Some(models[0].as_str().to_owned())
        } else {
            None
        },
    };
    assert(strs(models@).len() == models@.len());
    let retry_count = match d.retry_count {
        Some(n) => if n < 10 {
            Some(n)
        } else {
            Some(10u32)
        },
        None => None,
    };
    llm.providers = providers;
    llm.default_provider = default_provider;
    llm.default_model = default_model;
    llm.retry_count = retry_count;
    llm.budget_tokens = d.budget_tokens;
    llm.pricing = edit_prices(&d.pricing);
    llm.base_url = None;
    llm.api_key = None;
    llm.models = Vec::new();
    Ok(())
}

proof fn kept_names_differ(v: Seq<LlmProviderDto>, p: Seq<ProviderView>)
    requires
        edited_providers(v) == Ok::<Seq<ProviderView>, Seq<char>>(p),
    ensures
        forall|i: int, j: int|
            0 <= i < j < p.len() ==> (#[trigger] p[i]).name != (#[trigger] p[j]).name,
    decreases v.len(),
{
    if v.len() > 0 {
        let before = edited_providers(v.drop_last())->Ok_0;
        kept_names_differ(v.drop_last(), before);
        assert forall|i: int, j: int| 0 <= i < j < p.len() implies (#[trigger] p[i]).name != (
        #[trigger] p[j]).name by {
            assert(before[i] == p[i]);
            if j < before.len() {
                assert(before[j] == p[j]);
            }
        }
    }
}

proof fn kept_prices_differ(v: Seq<ModelPricing>)
    ensures
        forall|i: int, j: int|
            0 <= i < j < edited_prices(v).len() ==> (#[trigger] edited_prices(v)[i]).model != (
            #[trigger] edited_prices(v)[j]).model,
    decreases v.len(),
{
    if v.len() > 0 {
        let before = edited_prices(v.drop_last());
        let p = edited_prices(v);
        kept_prices_differ(v.drop_last());
        assert forall|i: int, j: int| 0 <= i < j < p.len() implies (#[trigger] p[i]).model != (
        #[trigger] p[j]).model by {
            assert(before[i] == p[i]);
            if j < before.len() {
                assert(before[j] == p[j]);
            }
        }
    }
}

proof fn first_is_named(v: Seq<ProviderView>, name: Seq<char>)
    requires
        has_name(v, name),
    ensures
        exists|i: int|
            0 <= i < v.len() && (#[trigger] v[i]).name == name && v[i].models == models_under(
                v,
                name,
            ),
    decreases v.len(),
{
    if v[0].name != name {
        let rest = v.drop_first();
        let i = choose|i: int| 0 <= i < v.len() && (#[trigger] v[i]).name == name;
        assert(rest[i - 1].name == name);
        first_is_named(rest, name);
        let k = choose|k: int|
            0 <= k < rest.len() && (#[trigger] rest[k]).name == name && rest[k].models
                == models_under(rest, name);
        assert(v[k + 1] == rest[k]);
    }
}

/// Settings that are saved agree with themselves: no two providers have one name, no model has
/// two prices, the provider that is called by default is one of them, and it has the model that
/// is called by default.
pub proof fn saved_settings_agree(s: LlmSettings, d: LlmSettingsDto, v: Seq<ProviderView>)
    requires
        edited_providers(d.providers@) == Ok::<Seq<ProviderView>, Seq<char>>(v),
        settings_saved(s, d, v),
    ensures
        forall|i: int, j: int|
            0 <= i < j < v.len() ==> (#[trigger] v[i]).name != (#[trigger] v[j]).name,
        forall|i: int, j: int|
            0 <= i < j < s.pricing@.len() ==> (#[trigger] s.pricing@[i]).model@ != (
            #[trigger] s.pricing@[j]).model@,
        s.default_provider is None <==> v.len() == 0,
        s.default_provider matches Some(n) ==> exists|i: int|
            0 <= i < v.len() && (#[trigger] v[i]).name == n@ && (s.default_model matches Some(m)
                ==> v[i].models.contains(m@)),
        s.retry_count matches Some(n) ==> n <= 10,
{
    kept_names_differ(d.providers@, v);
    kept_prices_differ(d.pricing@);
    assert forall|i: int, j: int| 0 <= i < j < s.pricing@.len() implies (
    #[trigger] s.pricing@[i]).model@ != (#[trigger] s.pricing@[j]).model@ by {
        assert(price_views(s.pricing@)[i].model == s.pricing@[i].model@);
        assert(price_views(s.pricing@)[j].model == s.pricing@[j].model@);
    }
    match s.default_provider {
        Some(n) => {
            if !has_name(v, n@) {
                assert(v[0].name == n@);
            }
            first_is_named(v, n@);
            let i = choose|i: int|
                0 <= i < v.len() && (#[trigger] v[i]).name == n@ && v[i].models == models_under(
                    v,
                    n@,
                );
            match s.default_model {
                Some(m) => {
                    let models = models_under(v, n@);
                    if !models.contains(m@) {
                        assert(models[0] == m@);
                    }
                },
                None => {},
            }
            assert(v[i].name == n@);
        },
        None => {},
    }
}

// ---- what the reader says of a book ----

/// Whether a book can have the status.
pub open spec fn is_status(s: Seq<char>) -> bool {
    s == "想读"@ || s == "在读"@ || s == "已读"@
}

/// Checks that a book can have the status.
pub fn check_status(status: &str) -> (r: Result<(), String>)
    ensures
        match r {
            Ok(_) => is_status(status@),
            Err(e) => !is_status(status@) && e@ == "无效的状态:「"@ + status@ + "」"@,
        },
{
    if same(status, "想读") || same(status, "在读") || same(status, "已读") {
        Ok(())
    } else {
        Err("无效的状态:「".to_owned().concat(status).concat("」"))
    }
}

/// The text that is to be translated.
pub fn translation_text(text: &str, configured: bool) -> (r: Result<String, String>)
    ensures
        match r {
            Ok(t) => !is_blank(text@) && configured && t@ == trim(text@),
            Err(e) => if is_blank(text@) {
                e@ == "内容为空"@
            } else {
                !configured && e@ == "未配置 LLM（请在设置页配置后重试）"@
            },
        },
{
    if blank(text) {
        Err("内容为空".to_owned())
    } else if !configured {
        Err("未配置 LLM（请在设置页配置后重试）".to_owned())
    } else {
        Ok(trimmed(text))
    }
}

impl Catalog {
    /// Keeps what the reader wrote of a book.
    pub fn save_book_review(&mut self, id: i64, review: &str) -> (r: Result<(), String>)
        requires
            old(self).wf(),
        ensures
            final(self).wf(),
            match r {
                Ok(_) => !is_blank(review@) && final(self)@ == with_book(
                    old(self)@,
                    id as int,
                    |b: BookView| BookView { my_review: Some(trim(review@)), ..b },
                ),
                Err(e) => is_blank(review@) && e@ == "书评不能为空"@ && *final(self) == *old(self),
            },
    {
        if blank(review) {
            return Err("书评不能为空".to_owned());
        }
        self.save_review(id, &trimmed(review));
        Ok(())
    }
}

/// What a model cost is its prompts at the price of the input and its answers at the price of
/// the output; nothing is said where no price is known.
pub proof fn tokens_cost_their_price(llm: LlmSettings, u: LlmUsageRow, c: ModelCost)
    requires
        is_cost(llm, u, c),
        u.prompt_tokens >= 0,
        u.completion_tokens >= 0,
    ensures
        c.model == u.model,
        explicit_price(llm.pricing@, u.model@) matches Some(p) ==> c.price == Some(p) && (
        c.cost matches Some(n) && n == u.prompt_tokens * p.0 + u.completion_tokens * p.1),
        explicit_price(llm.pricing@, u.model@) is None && preset_price(bare_model(u.model@)) is Some
            ==> c.price == preset_price(bare_model(u.model@)) && c.cost is Some,
        explicit_price(llm.pricing@, u.model@) is None && preset_price(bare_model(u.model@)) is None
            ==> c.price is None && c.cost is None,
{
}

/// All of it costs what the parts cost.
pub proof fn what_the_parts_cost_together(a: Seq<ModelCost>, b: Seq<ModelCost>, c: ModelCost)
    ensures
        cost_of_all(a + b) == cost_of_all(a) + cost_of_all(b),
        cost_of_all(seq![c]) == (match c.cost {
            Some(n) => n as nat,
            None => 0,
        }),
    decreases b.len(),
{
    let one = seq![c];
    assert(one.drop_last() =~= Seq::<ModelCost>::empty());
    assert(cost_of_all(one.drop_last()) == 0);
    if b.len() == 0 {
        assert(a + b =~= a);
    } else {
        what_the_parts_cost_together(a, b.drop_last(), c);
        assert((a + b).drop_last() =~= a + b.drop_last());
    }
}

/// The settings that are saved are those that were edited: each provider that has a name, under
/// that name, with its address, its key and its models; the provider and the model that are
/// wanted, where there are such; the budget; and the first price that was given for a model.
pub proof fn saved_settings_are_those_edited(
    s: LlmSettings,
    d: LlmSettingsDto,
    v: Seq<ProviderView>,
    i: int,
    k: int,
)
    requires
        edited_providers(d.providers@) == Ok::<Seq<ProviderView>, Seq<char>>(v),
        settings_saved(s, d, v),
    ensures
        s.budget_tokens == d.budget_tokens,
        d.retry_count matches Some(n) && n <= 10 ==> s.retry_count == d.retry_count,
        d.default_provider matches Some(p) && !is_blank(p@) ==> opt_str(s.default_provider) == Some(
            trim((d.default_provider->0)@),
        ),
        0 <= i < d.providers@.len() && !is_blank(d.providers@[i].name@) ==> exists|j: int|
            0 <= j < s.providers@.len() && (#[trigger] s.providers@[j]).name@ == trim(
                d.providers@[i].name@,
            ) && s.providers@[j].base_url@ == trim(d.providers@[i].base_url@)
                && s.providers@[j].api_key@ == trim(d.providers@[i].api_key@) && forall|m: Seq<
                char,
            >|
                strs(s.providers@[j].models@).contains(m) <==> #[trigger] tidy(
                    strs(d.providers@[i].models@),
                ).contains(m),
        0 <= k < d.pricing@.len() && !is_blank(d.pricing@[k].model@) && (forall|q: int|
            0 <= q < k ==> trim((#[trigger] d.pricing@[q]).model@) != trim(d.pricing@[k].model@))
            ==> exists|j: int|
            0 <= j < s.pricing@.len() && (#[trigger] s.pricing@[j]).model@ == trim(
                d.pricing@[k].model@,
            ) && s.pricing@[j].input_per_m == d.pricing@[k].input_per_m && s.pricing@[j].output_per_m
                == d.pricing@[k].output_per_m,
{
    if 0 <= i < d.providers@.len() && !is_blank(d.providers@[i].name@) {
        let j = provider_is_kept(d.providers@, v, i);
        assert(provider_views(s.providers@)[j] == v[j]);
        assert(provider_view(s.providers@[j]) == edited_provider(d.providers@[i]));
        union_is_distinct(Seq::empty(), tidy(strs(d.providers@[i].models@)));
        assert(s.providers@[j].name@ == trim(d.providers@[i].name@));
    }
    if 0 <= k < d.pricing@.len() && !is_blank(d.pricing@[k].model@) && (forall|q: int|
        0 <= q < k ==> trim((#[trigger] d.pricing@[q]).model@) != trim(d.pricing@[k].model@)) {
        let j = price_is_kept(d.pricing@, k);
        assert(price_views(s.pricing@)[j] == edited_prices(d.pricing@)[j]);
        assert(s.pricing@[j].model@ == trim(d.pricing@[k].model@));
    }
}

proof fn provider_is_kept(ds: Seq<LlmProviderDto>, v: Seq<ProviderView>, i: int) -> (j: int)
    requires
        edited_providers(ds) == Ok::<Seq<ProviderView>, Seq<char>>(v),
        0 <= i < ds.len(),
        !is_blank(ds[i].name@),
    ensures
        0 <= j < v.len(),
        v[j] == edited_provider(ds[i]),
    decreases ds.len(),
{
    let init = ds.drop_last();
    match edited_providers(init) {
        Ok(before) => {
            if i < init.len() {
                assert(init[i] == ds[i]);
                let j = provider_is_kept(init, before, i);
                assert(v[j] == before[j]);
                j
            } else {
                before.len() as int
            }
        },
        Err(e) => 0,
    }
}

proof fn price_is_kept(ds: Seq<ModelPricing>, k: int) -> (j: int)
    requires
        0 <= k < ds.len(),
        !is_blank(ds[k].model@),
        forall|q: int| 0 <= q < k ==> trim((#[trigger] ds[q]).model@) != trim(ds[k].model@),
    ensures
        0 <= j < edited_prices(ds).len(),
        edited_prices(ds)[j] == (PriceView {
            model: trim(ds[k].model@),
            input_per_m: ds[k].input_per_m,
            output_per_m: ds[k].output_per_m,
        }),
    decreases ds.len(),
{
    let init = ds.drop_last();
    let before = edited_prices(init);
    if k < init.len() {
        assert(init[k] == ds[k]);
        assert forall|q: int| 0 <= q < k implies trim((#[trigger] init[q]).model@) != trim(
            init[k].model@,
        ) by {
            assert(init[q] == ds[q]);
        }
        let j = price_is_kept(init, k);
        assert(edited_prices(ds)[j] == before[j]);
        j
    } else {
        if has_price(before, trim(ds[k].model@)) {
            let a = choose|a: int|
                0 <= a < before.len() && (#[trigger] before[a]).model == trim(ds[k].model@);
            let q = price_was_given(init, a);
            assert(ds[q] == init[q]);
        }
        before.len() as int
    }
}

proof fn price_was_given(ds: Seq<ModelPricing>, a: int) -> (q: int)
    requires
        0 <= a < edited_prices(ds).len(),
    ensures
        0 <= q < ds.len(),
        trim(ds[q].model@) == edited_prices(ds)[a].model,
    decreases ds.len(),
{
    let init = ds.drop_last();
    let before = edited_prices(init);
    if a < before.len() {
        let q = price_was_given(init, a);
        assert(init[q] == ds[q]);
        q
    } else {
        ds.len() - 1
    }
}

/// The provider that is called is the one that is wanted, without the white space round its name,
/// and the first without a wish; the model is the one that is wanted where the provider has it,
/// else the provider's first.
pub proof fn what_is_called_by_default(
    v: Seq<ProviderView>,
    models: Seq<Seq<char>>,
    wanted: Seq<char>,
)
    ensures
        !is_blank(wanted) ==> default_provider_of(v, Some(wanted)) == Some(trim(wanted)),
        is_blank(wanted) ==> default_provider_of(v, Some(wanted)) == default_provider_of(v, None),
        v.len() > 0 ==> default_provider_of(v, None) == Some(v[0].name),
        v.len() == 0 ==> default_provider_of(v, None) is None,
        !is_blank(wanted) && models.contains(trim(wanted)) ==> default_model_of(
            models,
            Some(wanted),
        ) == Some(trim(wanted)),
        is_blank(wanted) || !models.contains(trim(wanted)) ==> default_model_of(
            models,
            Some(wanted),
        ) == default_model_of(models, None),
        models.len() > 0 ==> default_model_of(models, None) == Some(models[0]),
        models.len() == 0 ==> default_model_of(models, None) is None,
{
}

} // verus!
