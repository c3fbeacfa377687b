use sally::computation::delta_list::DeltaList;
use sally::computation::virtual_memory::{VariableDefiner, VirtualMemory};
use sally::models::label::{lbl, Label};
use sally::models::model_characteristics::{
    characteristics_label, has_characteristic, CONTROLLABLE, STOCHASTIC, SYMBOLIC, TIMED,
};
use sally::models::model_clock::ModelClock;
use sally::models::model_var::{var, MappingError, ModelVar, VarType};
use sally::models::naming_context::NamingContext;
use sally::models::ModelMeta;

#[test]
fn labels_split_at_the_first_dot() {
    let (head, tail) = lbl("net.place.tokens").get_first_ident();
    assert_eq!(head.as_str(), "net");
    assert_eq!(tail.as_str(), "place.tokens");
    let (head, tail) = lbl("plain").get_first_ident();
    assert_eq!(head.as_str(), "plain");
    assert!(tail.is_empty());
}

#[test]
fn labels_take_and_recognise_a_domain() {
    let l = lbl("x").set_domain(lbl("net"));
    assert_eq!(l.as_str(), "net.x");
    assert!(l.has_domain(&lbl("net")));
    assert!(!l.has_domain(&lbl("ne")));
    assert!(!lbl("net").has_domain(&lbl("net")));
}

#[test]
fn labels_concatenate() {
    let l = lbl("a") + "b";
    assert_eq!(l.as_str(), "ab");
    let l = l + &lbl("c");
    assert_eq!(l.as_str(), "abc");
    let mut m = Label::from("x");
    m += "y";
    m += lbl("z");
    assert_eq!(m, Label::from(String::from("xyz")));
    assert!(Label::default().is_empty());
    assert_eq!(Label::new(), Label::from_str(""));
}

#[test]
fn characteristics_are_named_in_order() {
    assert_eq!(characteristics_label(0).as_str(), "()");
    assert_eq!(characteristics_label(TIMED | STOCHASTIC).as_str(), "Timed|Stochastic");
    assert_eq!(
        characteristics_label(SYMBOLIC | CONTROLLABLE | TIMED).as_str(),
        "Timed|Controllable|Symbolic"
    );
    assert!(has_characteristic(TIMED | SYMBOLIC, SYMBOLIC));
    assert!(!has_characteristic(TIMED, STOCHASTIC));
    let meta = ModelMeta { name: lbl("m"), description: String::new(), characteristics: TIMED };
    assert!(meta.is_timed());
    assert!(!meta.is_stochastic());
}

#[test]
fn variables_are_bound_and_unbound() {
    let mut v = var("x");
    assert_eq!(v.get_name().as_str(), "x");
    assert!(!v.is_mapped());
    assert_eq!(v.get_type(), VarType::UnknownType);
    v.set_type(VarType::VarI16);
    v.set_address(4);
    assert!(v.is_mapped());
    assert_eq!(v.get_address(), 4);
    assert_eq!(v.size(), 2);
    v.unbind();
    assert!(!v.is_mapped());
    assert_eq!(v.get_type(), VarType::UnknownType);
    let w = ModelVar::make_defined(lbl("y"), 2, VarType::VarU8);
    assert_eq!(w.get_address(), 2);
    assert_eq!(ModelVar::from("z").get_name().as_str(), "z");
    assert_eq!(VarType::VarI32.size(), 4);
    assert!(VarType::default().is_unknown());
}

#[test]
fn clocks_start_unmapped() {
    let c = ModelClock::name(lbl("t"));
    assert_eq!(c.get_name().as_str(), "t");
    assert!(!c.is_mapped());
    assert_eq!(c.get_index(), usize::MAX);
    assert!(ModelClock::default().get_name().is_empty());
}

#[test]
fn memory_stores_values_by_type() {
    let mut mem = VirtualMemory::new();
    let mut a = var("a");
    let mut b = var("b");
    let mut c = var("c");
    mem.define(&mut a, VarType::VarU8);
    mem.define(&mut b, VarType::VarI16);
    mem.define(&mut c, VarType::VarI32);
    assert_eq!(mem.len(), 7);
    assert_eq!(a.get_address(), 0);
    assert_eq!(b.get_address(), 1);
    assert_eq!(c.get_address(), 3);
    mem.set(&a, 300);
    mem.set(&b, -2);
    mem.set(&c, -70000);
    assert_eq!(mem.evaluate(&a), 44);
    assert_eq!(mem.evaluate(&b), -2);
    assert_eq!(mem.evaluate(&c), -70000);
}

#[test]
fn memory_is_resized_and_copied() {
    let mut mem = VirtualMemory::from_size(2);
    assert!(!mem.is_empty());
    let mut x = ModelVar::address(0, VarType::VarU16);
    mem.set(&x, 513);
    assert_eq!(mem.evaluate(&x), 513);
    let mut other = VirtualMemory::from_size(3);
    other.copy_from(&mem);
    assert_eq!(other.evaluate(&x), 513);
    other.size_delta(2);
    assert_eq!(other.len(), 5);
    other.resize(1);
    assert_eq!(other.len(), 1);
    assert_eq!(mem.get_hash(), mem.clone().get_hash());
    assert_ne!(VirtualMemory::from_size(1).get_hash(), VirtualMemory::from_size(2).get_hash());
    let mut y = var("y");
    x.unbind();
    mem.define(&mut y, VarType::VarU8);
    assert_eq!(y.get_address(), 2);
}

#[test]
fn definer_counts_bytes() {
    let mut d = VariableDefiner::new();
    let mut a = var("a");
    d.define(&mut a, VarType::VarU32);
    assert_eq!(d.size(), 4);
    assert_eq!(a.get_address(), 0);
    let mut e = VariableDefiner::new();
    let mut b = var("b");
    e.define(&mut b, VarType::VarU8);
    d.append(e);
    assert_eq!(d.size(), 5);
    let mem = VirtualMemory::from(d.clone());
    assert_eq!(mem.len(), 5);
    d.clear();
    assert_eq!(d.size(), 0);
}

#[test]
fn naming_context_counts_names() {
    let mut ctx = NamingContext::new();
    ctx.add_var(lbl("x"), 0);
    ctx.add_var(lbl("y"), 1);
    ctx.add_action(lbl("go"), 0);
    let mut sub = NamingContext::new();
    sub.add_var(lbl("z"), 2);
    ctx.add_sub_context(lbl("inner"), sub);
    assert_eq!(ctx.n_vars(), 3);
    assert_eq!(ctx.n_actions(), 1);
}

#[test]
fn delta_list_keeps_values_beside_an_offset() {
    let mut l = DeltaList::new(5);
    l.push(0, 10);
    assert_eq!(l.at(0), 20);
    assert_eq!(l.index_min(), vec![0]);
    assert_eq!(l.min_value(), 20);
    l.push(1, 20);
    assert_eq!(l.at(1), 25);
    assert!(l.contains(&1));
    l.delta(2);
    assert_eq!(l.at(0), 22);
    assert_eq!(l.remove(1), 20);
    assert!(!l.contains(&1));
    assert_eq!(l.index_min(), vec![0]);
}

#[test]
fn delta_list_from_pairs_finds_the_minimum() {
    let l = DeltaList::from(std::collections::HashMap::from([(0, 3), (1, 1), (2, 1)]), 4);
    let mut mins = l.index_min();
    mins.sort();
    assert_eq!(mins, vec![1, 2]);
    assert_eq!(l.min_value(), 5);
    assert_eq!(l.at(0), 7);
}

#[test]
fn descriptions_are_written_out() {
    let meta = ModelMeta { name: lbl("PN"), description: String::from("nets"), characteristics: TIMED };
    assert_eq!(meta.to_text(), " [.] Model (PN)\n | Description : \n | nets\n | Characteristics : Timed");
    assert_eq!(MappingError(lbl("x")).to_text(), "Mapping error : label x not found in context");
    let mut mem = VirtualMemory::from_size(17);
    let v = ModelVar::address(16, VarType::VarU8);
    mem.set(&v, 255);
    let expected = format!("VirtualMemory[\n0 |\t{}\n10 |\tff \n]", "0 ".repeat(16));
    assert_eq!(mem.to_text(), expected);
    assert_eq!(VirtualMemory::new().to_text(), "VirtualMemory[EMPTY]");
}

#[test]
fn random_labels_have_the_asked_length() {
    let l = Label::new_random(12);
    assert_eq!(l.as_str().len(), 12);
    assert!(l.as_str().chars().all(|c| c.is_ascii_alphanumeric()));
    assert!(Label::new_random(0).is_empty());
}
