//! Beste kjøp og salg av en aksje gitt daglige kursendringer.
use vstd::prelude::*;

verus! {

/// Summen av kursendringene etter dag `i` til og med dag `j` (0-indeksert),
/// altså gevinsten ved å kjøpe etter endringen på dag `i` og selge etter dag `j`.
pub open spec fn gevinst(endringer: Seq<i32>, i: int, j: int) -> int
    decreases j - i,
{
    if j <= i {
        0
    } else {
        gevinst(endringer, i, j - 1) + endringer[j]
    }
}

/// Paret `(i, j)` kommer før paret `(k, l)` i den rekkefølgen algoritmen prøver dem.
pub open spec fn kommer_foer(i: int, j: int, k: int, l: int) -> bool {
    i < k || (i == k && j < l)
}

/// Et gyldig handelspar: kjøp på dag `i`, salg på en senere dag `j`.
pub open spec fn gyldig_par(n: int, i: int, j: int) -> bool {
    0 <= i < j < n
}

/// Ingen delsum av kursendringene går utenfor `i32`.
pub open spec fn summer_passer(endringer: Seq<i32>) -> bool {
    forall|i: int, j: int|
        0 <= i <= j < endringer.len() ==> i32::MIN <= #[trigger] gevinst(endringer, i, j) <= i32::MAX
}

/// Resultatet av `beste_handel`: den største gevinsten (eller 0), og det første
/// paret som gir den når gevinsten er positiv.
pub open spec fn er_beste_handel(endringer: Seq<i32>, kjop: usize, salg: usize, gevinst_maks: i32) -> bool {
    let n = endringer.len() as int;
    &&& gevinst_maks >= 0
    &&& forall|i: int, j: int| gyldig_par(n, i, j) ==> #[trigger] gevinst(endringer, i, j) <= gevinst_maks
    &&& gevinst_maks == 0 ==> kjop == 0 && salg == 0
    &&& gevinst_maks > 0 ==> {
        &&& gyldig_par(n, kjop - 1, salg - 1)
        &&& gevinst(endringer, kjop - 1, salg - 1) == gevinst_maks
        &&& forall|i: int, j: int|
            gyldig_par(n, i, j) && kommer_foer(i, j, kjop - 1, salg - 1)
                ==> #[trigger] gevinst(endringer, i, j) < gevinst_maks
    }
}

/// Finner dagen det lønner seg best å kjøpe og dagen det lønner seg best å
/// selge på (1-indekserte), og gevinsten. Uten noen positiv gevinst blir
/// resultatet `(0, 0, 0)`.
pub fn beste_handel(endringer: &[i32]) -> (res: (usize, usize, i32))
    requires
        summer_passer(endringer@),
    ensures
        er_beste_handel(endringer@, res.0, res.1, res.2),
{
    let n = endringer.len();
    let mut gevinst_maks: i32 = 0;
    let mut kjop: usize = 0;
    let mut salg: usize = 0;
    let mut i: usize = 0;
    while i < n
        invariant
            n == endringer@.len(),
            summer_passer(endringer@),
            i <= n,
            gevinst_maks >= 0,
            forall|a: int, b: int| gyldig_par(n as int, a, b) && a < i ==> #[trigger] gevinst(endringer@, a, b) <= gevinst_maks,
            gevinst_maks == 0 ==> kjop == 0 && salg == 0,
            gevinst_maks > 0 ==> {
                &&& gyldig_par(n as int, kjop - 1, salg - 1)
                &&& kjop - 1 < i
                &&& gevinst(endringer@, kjop - 1, salg - 1) == gevinst_maks
                &&& forall|a: int, b: int|
                    gyldig_par(n as int, a, b) && kommer_foer(a, b, kjop - 1, salg - 1)
                        ==> #[trigger] gevinst(endringer@, a, b) < gevinst_maks
            },
        decreases n - i,
    {
        let mut diff: i32 = 0;
        let mut j: usize = i + 1;
        while j < n
            invariant
                n == endringer@.len(),
                summer_passer(endringer@),
                i < n,
                i + 1 <= j <= n,
                diff == gevinst(endringer@, i as int, j - 1),
                gevinst_maks >= 0,
                forall|a: int, b: int|
                    gyldig_par(n as int, a, b) && (a < i || (a == i && b < j)) ==> #[trigger] gevinst(endringer@, a, b) <= gevinst_maks,
                gevinst_maks == 0 ==> kjop == 0 && salg == 0,
                gevinst_maks > 0 ==> {
                    &&& gyldig_par(n as int, kjop - 1, salg - 1)
                    &&& kommer_foer(kjop - 1, salg - 1, i as int, j as int)
                    &&& gevinst(endringer@, kjop - 1, salg - 1) == gevinst_maks
                    &&& forall|a: int, b: int|
                        gyldig_par(n as int, a, b) && kommer_foer(a, b, kjop - 1, salg - 1)
                            ==> #[trigger] gevinst(endringer@, a, b) < gevinst_maks
                },
            decreases n - j,
        {
            assert(i32::MIN <= gevinst(endringer@, i as int, j as int) <= i32::MAX);
            diff = diff + endringer[j];
            if diff > gevinst_maks {
                gevinst_maks = diff;
                kjop = i + 1;
                salg = j + 1;
            }
            j = j + 1;
        }
        i = i + 1;
    }
    (kjop, salg, gevinst_maks)
}

/// En delsum er forskjellen mellom to summer fra starten.
pub proof fn lemma_gevinst_differanse(endringer: Seq<i32>, i: int, j: int)
    requires
        -1 <= i <= j,
    ensures
        gevinst(endringer, i, j) == gevinst(endringer, -1, j) - gevinst(endringer, -1, i),
    decreases j - i,
{
    if j > i {
        lemma_gevinst_differanse(endringer, i, j - 1);
    }
}

/// Om ingen delsum av kursendringene går utenfor `i32`, altså om
/// `beste_handel` kan regne uten overflyt.
pub fn summer_passer_sjekk(endringer: &[i32]) -> (res: bool)
    ensures
        res == summer_passer(endringer@),
{
    let n = endringer.len();
    let ghost e = endringer@;
    let mut sum: i128 = 0;
    let mut minste: i128 = 0;
    let mut storste: i128 = 0;
    let mut j: usize = 0;
    while j < n
        invariant
            n == e.len(),
            e == endringer@,
            j <= n,
            sum == gevinst(e, -1, j - 1),
            -2147483648 * (j as int) <= sum <= 2147483647 * (j as int),
            -2147483648 * (j as int) <= minste <= 2147483647 * (j as int),
            -2147483648 * (j as int) <= storste <= 2147483647 * (j as int),
            j > 0 ==> forall|i: int| 0 <= i < j ==> minste <= #[trigger] gevinst(e, -1, i) <= storste,
            j > 0 ==> exists|i: int| 0 <= i < j && minste == #[trigger] gevinst(e, -1, i),
            j > 0 ==> exists|i: int| 0 <= i < j && storste == #[trigger] gevinst(e, -1, i),
            forall|i: int, k: int| 0 <= i <= k < j ==> i32::MIN <= #[trigger] gevinst(e, i, k) <= i32::MAX,
        decreases n - j,
    {
        let ghost forrige = sum;
        sum = sum + endringer[j] as i128;
        assert(sum == gevinst(e, -1, j as int));
        if j == 0 {
            minste = sum;
            storste = sum;
        } else {
            if sum < minste {
                minste = sum;
            }
            if sum > storste {
                storste = sum;
            }
        }
        if sum - minste > 2147483647 || sum - storste < -2147483648 {
            proof {
                if sum - minste > 2147483647 {
                    let i = choose|i: int| 0 <= i <= j && minste == #[trigger] gevinst(e, -1, i);
                    lemma_gevinst_differanse(e, i, j as int);
                    assert(gevinst(e, i, j as int) > i32::MAX);
                } else {
                    let i = choose|i: int| 0 <= i <= j && storste == #[trigger] gevinst(e, -1, i);
                    lemma_gevinst_differanse(e, i, j as int);
                    assert(gevinst(e, i, j as int) < i32::MIN);
                }
            }
            return false;
        }
        proof {
            assert forall|i: int, k: int| 0 <= i <= k < j + 1 implies i32::MIN <= #[trigger] gevinst(e, i, k) <= i32::MAX by {
                if k == j {
                    lemma_gevinst_differanse(e, i, k);
                    assert(minste <= gevinst(e, -1, i) <= storste);
                }
            }
        }
        j = j + 1;
    }
    true
}

/// Gjør tilfeldige bytes om til kursendringer i intervallet [-10, 10].
pub fn kursendringer_fra_bytes(bytes: &[u8]) -> (endringer: Vec<i32>)
    ensures
        endringer@.len() == bytes@.len(),
        forall|k: int| 0 <= k < bytes@.len() ==> #[trigger] endringer@[k] == (bytes@[k] % 21) as i32 - 10,
{
    let mut endringer: Vec<i32> = Vec::new();
    let mut k: usize = 0;
    while k < bytes.len()
        invariant
            k <= bytes@.len(),
            endringer@.len() == k,
            forall|m: int| 0 <= m < k ==> #[trigger] endringer@[m] == (bytes@[m] % 21) as i32 - 10,
        decreases bytes@.len() - k,
    {
        let b: u8 = bytes[k] % 21;
        endringer.push(b as i32 - 10);
        k = k + 1;
    }
    endringer
}

} // verus!
