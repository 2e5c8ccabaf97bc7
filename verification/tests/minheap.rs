use lib::minheap::MinHeap;

fn tom(heap: &mut MinHeap<usize>) -> Vec<usize> {
    let mut ut = Vec::new();
    while let Some(x) = heap.pop() {
        ut.push(x);
    }
    ut
}

#[test]
fn fra_liste_gir_stigende_rekkefolge() {
    let mut heap = MinHeap::fra_liste(&[5usize, 3, 8, 1, 9, 2]);
    assert_eq!(heap.len(), 6);
    assert_eq!(tom(&mut heap), vec![1, 2, 3, 5, 8, 9]);
    assert!(heap.er_tom());
}

#[test]
fn push_og_pop() {
    let mut heap: MinHeap<usize> = MinHeap::opprett();
    assert!(heap.er_tom());
    assert_eq!(heap.pop(), None);
    for x in [4usize, 4, 1, 7, 0] {
        heap.push(x);
    }
    assert_eq!(tom(&mut heap), vec![0, 1, 4, 4, 7]);
}

#[test]
fn endre_vekt_flytter_elementet() {
    let mut heap = MinHeap::fra_liste(&[10usize, 20, 30, 40]);
    let i = heap.finn_element(&40).unwrap();
    heap.endre_vekt(i, 5);
    let j = heap.finn_element(&10).unwrap();
    heap.endre_vekt(j, 50);
    assert_eq!(tom(&mut heap), vec![5, 20, 30, 50]);
}

#[test]
fn endre_vekt_utenfor_heapen_gjor_ingenting() {
    let mut heap = MinHeap::fra_liste(&[3usize, 1]);
    heap.endre_vekt(7, 0);
    assert_eq!(tom(&mut heap), vec![1, 3]);
}

#[test]
fn finn_element_som_mangler() {
    let heap = MinHeap::fra_liste(&[3usize, 1, 2]);
    assert_eq!(heap.finn_element(&42), None);
    assert_eq!(heap.finn_element(&1), Some(0));
}
