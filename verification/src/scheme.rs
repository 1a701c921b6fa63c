//! The self-care domain records: credentials, tariff steps, products and
//! the device map, with the lookups and the form payloads that a speed
//! change sends. Loading these records from disk or JSON stays with the
//! caller; here they are plain values.

use vstd::prelude::*;

verus! {

/// Credentials and the target SIM: what a speed change needs to know.
pub struct Config {
    pub name: String,
    pub password: String,
    pub iccid: String,
}

/// Mathematical image of a tariff step.
pub struct StepV {
    pub code: Seq<char>,
    pub speed_number: Seq<char>,
}

/// One tariff step: an offer code and the speed it stands for.
pub struct Step {
    pub code: String,
    pub speed_number: String,
}

impl View for Step {
    type V = StepV;

    open spec fn view(&self) -> StepV {
        StepV { code: self.code@, speed_number: self.speed_number@ }
    }
}

/// Mathematical image of a product.
pub struct ProductV {
    pub product_id: Seq<char>,
    pub steps: Seq<StepV>,
}

/// One product: its identifier and the tariff steps it offers.
pub struct Product {
    pub product_id: String,
    pub steps: Vec<Step>,
}

/// The steps of a product, seen mathematically.
pub open spec fn steps_view(s: Seq<Step>) -> Seq<StepV> {
    Seq::new(s.len(), |i: int| s[i]@)
}

impl View for Product {
    type V = ProductV;

    open spec fn view(&self) -> ProductV {
        ProductV { product_id: self.product_id@, steps: steps_view(self.steps@) }
    }
}

/// The first step offering `speed`, if any.
pub open spec fn find_step(steps: Seq<StepV>, speed: Seq<char>) -> Option<StepV>
    decreases steps.len(),
{
    if steps.len() == 0 {
        None
    } else if steps[0].speed_number == speed {
        Some(steps[0])
    } else {
        find_step(steps.drop_first(), speed)
    }
}

impl Product {
    /// The first of this product's steps that offers `speed`.
    pub fn get_step(&self, speed: &str) -> (r: Option<&Step>)
        ensures
            match r {
                Some(s) => find_step(self@.steps, speed@) == Some(s@),
                None => find_step(self@.steps, speed@) is None,
            },
    {
        let wanted: String = speed.to_owned();
        let n: usize = self.steps.len();
        let mut i: usize = 0;
        proof {
            assert(self@.steps.subrange(0, n as int) =~= self@.steps);
        }
        while i < n
            invariant
                n == self.steps@.len(),
                0 <= i <= n,
                wanted@ == speed@,
                find_step(self@.steps, speed@) == find_step(
                    self@.steps.subrange(i as int, n as int),
                    speed@,
                ),
            decreases n - i,
        {
            proof {
                assert(self@.steps.subrange(i as int, n as int)[0] == self@.steps[i as int]);
                assert(self@.steps.subrange(i as int, n as int).drop_first() =~= self@
                    .steps
                    .subrange(i + 1 as int, n as int));
            }
            if self.steps[i].speed_number == wanted {
                return Some(&self.steps[i]);
            }
            i += 1;
        }
        proof {
            assert(self@.steps.subrange(n as int, n as int) =~= Seq::<StepV>::empty());
        }
        None
    }
}

/// Mathematical image of the device map.
pub open spec fn devices_view(s: Seq<(String, Product)>) -> Seq<(Seq<char>, ProductV)> {
    Seq::new(s.len(), |i: int| (s[i].0@, s[i].1@))
}

/// At most one product per identifier: the shape [`Devices`] is loaded in.
pub open spec fn devices_wf(m: Seq<(Seq<char>, ProductV)>) -> bool {
    forall|i: int, j: int| 0 <= i < j < m.len() ==> m[i].0 != m[j].0
}

/// The device map: products keyed by their identifier, in load order. Its
/// loader keys it uniquely (see [`devices_wf`]), and under that shape the
/// lookup reads it as a map (see [`lemma_find_product_unique`]).
pub struct Devices {
    pub mapped: Vec<(String, Product)>,
}

impl View for Devices {
    type V = Seq<(Seq<char>, ProductV)>;

    open spec fn view(&self) -> Seq<(Seq<char>, ProductV)> {
        devices_view(self.mapped@)
    }
}

/// The first product under `key`, if any.
pub open spec fn find_product(m: Seq<(Seq<char>, ProductV)>, key: Seq<char>) -> Option<ProductV>
    decreases m.len(),
{
    if m.len() == 0 {
        None
    } else if m[0].0 == key {
        Some(m[0].1)
    } else {
        find_product(m.drop_first(), key)
    }
}

impl Devices {
    /// The product stored under `product`, if any.
    pub fn get_product(&self, product: &str) -> (r: Option<&Product>)
        ensures
            match r {
                Some(p) => find_product(self@, product@) == Some(p@),
                None => find_product(self@, product@) is None,
            },
    {
        let wanted: String = product.to_owned();
        let n: usize = self.mapped.len();
        let mut i: usize = 0;
        proof {
            assert(self@.subrange(0, n as int) =~= self@);
        }
        while i < n
            invariant
                n == self.mapped@.len(),
                0 <= i <= n,
                wanted@ == product@,
                find_product(self@, product@) == find_product(
                    self@.subrange(i as int, n as int),
                    product@,
                ),
            decreases n - i,
        {
            proof {
                assert(self@.subrange(i as int, n as int)[0] == self@[i as int]);
                assert(self@.subrange(i as int, n as int).drop_first() =~= self@.subrange(
                    i + 1 as int,
                    n as int,
                ));
            }
            if self.mapped[i].0 == wanted {
                return Some(&self.mapped[i].1);
            }
            i += 1;
        }
        proof {
            assert(self@.subrange(n as int, n as int) =~= Seq::<(Seq<char>, ProductV)>::empty());
        }
        None
    }
}

/// The form fields of the login request, in order: the credentials, the
/// success and failure targets, and the fixed organization and flags.
pub fn login_params(config: &Config) -> (r: Vec<(String, String)>)
    ensures
        r@.len() == 7,
        r@[0].0@ == "IDToken1"@ && r@[0].1@ == config.name@,
        r@[1].0@ == "IDToken2"@ && r@[1].1@ == config.password@,
        r@[2].0@ == "goto"@ && r@[2].1@ == "https://my.yota.ru:443/selfcare/loginSuccess"@,
        r@[3].0@ == "gotoOnFail"@ && r@[3].1@ == "https://my.yota.ru:443/selfcare/loginError"@,
        r@[4].0@ == "org"@ && r@[4].1@ == "customer"@,
        r@[5].0@ == "ForceAuth"@ && r@[5].1@ == "true"@,
        r@[6].0@ == "old-token"@ && r@[6].1@ == ""@,
{
    let mut r: Vec<(String, String)> = Vec::new();
    r.push(("IDToken1".to_owned(), config.name.clone()));
    r.push(("IDToken2".to_owned(), config.password.clone()));
    r.push(("goto".to_owned(), "https://my.yota.ru:443/selfcare/loginSuccess".to_owned()));
    r.push(("gotoOnFail".to_owned(), "https://my.yota.ru:443/selfcare/loginError".to_owned()));
    r.push(("org".to_owned(), "customer".to_owned()));
    r.push(("ForceAuth".to_owned(), "true".to_owned()));
    r.push(("old-token".to_owned(), "".to_owned()));
    r
}

/// The form fields of the change-offer request, in order: the product and
/// the chosen offer code, then the fixed flags the form always carries
/// (`homeOfferCode` is sent twice, as the form does).
pub fn change_offer_params(product: &Product, step: &Step) -> (r: Vec<(String, String)>)
    ensures
        r@.len() == 13,
        r@[0].0@ == "product"@ && r@[0].1@ == product.product_id@,
        r@[1].0@ == "offerCode"@ && r@[1].1@ == step.code@,
        r@[2].0@ == "areOffersAvailable"@ && r@[2].1@ == "false"@,
        r@[3].0@ == "status"@ && r@[3].1@ == "custom"@,
        r@[4].0@ == "autoprolong"@ && r@[4].1@ == "0"@,
        r@[5].0@ == "isSlot"@ && r@[5].1@ == "false"@,
        r@[6].0@ == "currentDevice"@ && r@[6].1@ == "1"@,
        r@[7].0@ == "isDisablingAutoprolong"@ && r@[7].1@ == "false"@,
        r@[8].0@ == "resourceId"@ && r@[8].1@ == ""@,
        r@[9].0@ == "username"@ && r@[9].1@ == ""@,
        r@[10].0@ == "homeOfferCode"@ && r@[10].1@ == ""@,
        r@[11].0@ == "period"@ && r@[11].1@ == ""@,
        r@[12].0@ == "homeOfferCode"@ && r@[12].1@ == ""@,
{
    let mut r: Vec<(String, String)> = Vec::new();
    r.push(("product".to_owned(), product.product_id.clone()));
    r.push(("offerCode".to_owned(), step.code.clone()));
    r.push(("areOffersAvailable".to_owned(), "false".to_owned()));
    r.push(("status".to_owned(), "custom".to_owned()));
    r.push(("autoprolong".to_owned(), "0".to_owned()));
    r.push(("isSlot".to_owned(), "false".to_owned()));
    r.push(("currentDevice".to_owned(), "1".to_owned()));
    r.push(("isDisablingAutoprolong".to_owned(), "false".to_owned()));
    r.push(("resourceId".to_owned(), "".to_owned()));
    r.push(("username".to_owned(), "".to_owned()));
    r.push(("homeOfferCode".to_owned(), "".to_owned()));
    r.push(("period".to_owned(), "".to_owned()));
    r.push(("homeOfferCode".to_owned(), "".to_owned()));
    r
}


/// Law: with unique identifiers the lookup reads the list as a map — it
/// finds exactly the product stored beside the key, wherever it stands.
pub proof fn lemma_find_product_unique(m: Seq<(Seq<char>, ProductV)>, i: int)
    requires
        devices_wf(m),
        0 <= i < m.len(),
    ensures
        find_product(m, m[i].0) == Some(m[i].1),
    decreases m.len(),
{
    if i > 0 {
        assert(m[0].0 != m[i].0);
        assert(devices_wf(m.drop_first())) by {
            assert(forall|a: int, b: int|
                0 <= a < b < m.drop_first().len() ==> m.drop_first()[a] == m[a + 1]
                    && m.drop_first()[b] == m[b + 1]);
        }
        assert(m.drop_first()[i - 1] == m[i]);
        lemma_find_product_unique(m.drop_first(), i - 1);
    }
}

} // verus!
