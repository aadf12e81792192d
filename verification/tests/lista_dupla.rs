use lib::lista_dupla::ListaDupla;

fn lista_dupla_de(texto: &str) -> ListaDupla<char> {
    let mut lista: ListaDupla<char> = ListaDupla::novo();
    for letra in texto.chars() {
        lista.colocar(letra);
    }
    lista
}

fn texto_duplo(lista: &ListaDupla<char>) -> String {
    lista.elementos().into_iter().collect()
}

#[test]
fn teste_lista_dupla() {
    let mensagem: &str = "Palavra";
    let mut lista = lista_dupla_de(mensagem);
    let mut endereco = lista.ponta();
    for _i in 1..mensagem.len() {
        lista.inserir_antes(endereco, '!');
        let (exclamacao, end) = lista.anterior(endereco);
        assert_eq!(exclamacao, '!');
        let (_c, end) = lista.anterior(end);
        endereco = end;
    }
    assert_eq!(endereco, lista.cabeca());
    assert_eq!(texto_duplo(&lista), "P!a!l!a!v!r!a");
    assert_eq!(lista.n(), 13);
}

#[test]
fn dupla_nova_esta_vazia() {
    let lista: ListaDupla<i64> = ListaDupla::novo();
    assert_eq!(lista.n(), 0);
    assert!(lista.elementos().is_empty());
    assert_eq!(lista.into_iter().next(), None);
}

#[test]
fn dupla_colocar_e_percorrer_nos_dois_sentidos() {
    let mut lista = lista_dupla_de("abc");
    let a = lista.cabeca();
    let (b, end_b) = lista.proximo(a);
    let (c, end_c) = lista.proximo(end_b);
    assert_eq!((b, c), ('b', 'c'));
    assert_eq!(end_c, lista.ponta());
    assert_eq!(lista.anterior(end_c), ('b', end_b));
    assert_eq!(lista.anterior(end_b), ('a', a));
    assert_eq!(lista.proximo2(a), ('b', end_b));
}

#[test]
fn dupla_ler_cabeca() {
    let mut lista = lista_dupla_de("m");
    assert_eq!(lista.ler_cabeca(), ('m', lista.cabeca()));
    lista.colocar('n');
    assert_eq!(lista.ler_cabeca(), ('m', lista.ponta()));
}

#[test]
fn dupla_inserir_cabeca() {
    let mut lista: ListaDupla<u8> = ListaDupla::novo();
    lista.inserir_cabeca(3);
    assert_eq!(lista.elementos(), vec![3]);
    lista.inserir_cabeca(2);
    lista.inserir_cabeca(1);
    assert_eq!(lista.elementos(), vec![1, 2, 3]);
    let cabeca = lista.cabeca();
    let (dois, end2) = lista.proximo(cabeca);
    assert_eq!(dois, 2);
    assert_eq!(lista.anterior(end2), (1, cabeca));
    lista.colocar(4);
    assert_eq!(lista.elementos(), vec![1, 2, 3, 4]);
}

#[test]
fn dupla_inserir_antes_da_cabeca_e_do_meio() {
    let mut lista = lista_dupla_de("bd");
    let b = lista.cabeca();
    let d = lista.ponta();
    lista.inserir_antes(b, 'a');
    lista.inserir_antes(d, 'c');
    assert_eq!(texto_duplo(&lista), "abcd");
    assert_eq!(lista.anterior(d).0, 'c');
    assert_eq!(lista.anterior(b), ('a', lista.cabeca()));
}

#[test]
fn dupla_inserir_apos_a_ponta() {
    let mut lista = lista_dupla_de("xy");
    let y = lista.ponta();
    lista.inserir_apos(y, 'z');
    assert_eq!(texto_duplo(&lista), "xyz");
    let z = lista.ponta();
    assert_eq!(lista.anterior(z), ('y', y));
    lista.colocar('w');
    assert_eq!(texto_duplo(&lista), "xyzw");
}

#[test]
fn dupla_deletar_em_cada_posicao() {
    let mut lista = lista_dupla_de("abcde");
    let a = lista.cabeca();
    let (_, b) = lista.proximo(a);
    let (_, c) = lista.proximo(b);
    let e = lista.ponta();
    lista.deletar(c);
    assert_eq!(texto_duplo(&lista), "abde");
    assert_eq!(lista.proximo(b).0, 'd');
    let (_, d) = lista.proximo(b);
    assert_eq!(lista.anterior(d), ('b', b));
    lista.deletar(e);
    assert_eq!(texto_duplo(&lista), "abd");
    assert_eq!(lista.ponta(), d);
    lista.deletar(a);
    assert_eq!(texto_duplo(&lista), "bd");
    assert_eq!(lista.cabeca(), b);
    lista.deletar(b);
    lista.deletar(d);
    assert_eq!(lista.n(), 0);
    lista.colocar('q');
    assert_eq!(texto_duplo(&lista), "q");
}

#[test]
fn dupla_deletar_apos_e_deletar_cabeca() {
    let mut lista = lista_dupla_de("123");
    let um = lista.cabeca();
    lista.deletar_apos(um);
    assert_eq!(texto_duplo(&lista), "13");
    let tres = lista.ponta();
    assert_eq!(lista.anterior(tres), ('1', um));
    lista.deletar_cabeca();
    assert_eq!(texto_duplo(&lista), "3");
    assert_eq!(lista.cabeca(), tres);
    // a ponta continua a guardar o endereço da antiga cabeça
    assert_eq!(lista.ler_cabeca(), ('3', um));
}

#[test]
fn dupla_alterar() {
    let mut lista = lista_dupla_de("abc");
    let (_, b) = lista.proximo(lista.cabeca());
    lista.alterar(b, 'B');
    assert_eq!(texto_duplo(&lista), "aBc");
}

#[test]
fn dupla_inserir_antes_e_deletar_devolve_a_lista() {
    let mut lista = lista_dupla_de("pq");
    let q = lista.ponta();
    lista.inserir_antes(q, '*');
    assert_eq!(texto_duplo(&lista), "p*q");
    let (_, novo) = lista.anterior(q);
    lista.deletar(novo);
    assert_eq!(texto_duplo(&lista), "pq");
    lista.inserir_cabeca('o');
    lista.deletar_cabeca();
    assert_eq!(texto_duplo(&lista), "pq");
}

#[test]
fn dupla_anterior_do_proximo_e_proximo_do_anterior() {
    let mut lista = lista_dupla_de("rst");
    let r = lista.cabeca();
    let (_, s) = lista.proximo(r);
    let (_, t) = lista.proximo(s);
    let (_, volta) = lista.anterior(s);
    assert_eq!(volta, r);
    let (_, ida) = lista.proximo(volta);
    assert_eq!(ida, s);
    let (_, antes_de_t) = lista.anterior(t);
    assert_eq!(lista.proximo(antes_de_t), ('t', t));
}

#[test]
fn dupla_iterador() {
    let lista = lista_dupla_de("ok");
    let mut it = lista.into_iter();
    assert_eq!(it.next(), Some('o'));
    assert_eq!(it.next(), Some('k'));
    assert_eq!(it.next(), None);
}

#[test]
fn dupla_celulas_removidas_sao_reaproveitadas() {
    let mut lista = lista_dupla_de("xyz");
    let x = lista.cabeca();
    let (_, y) = lista.proximo(x);
    lista.deletar(y);
    lista.inserir_cabeca('w');
    assert_eq!(lista.cabeca(), y);
    assert_eq!(texto_duplo(&lista), "wxz");
    assert_eq!(lista.anterior(x), ('w', y));
    let z = lista.ponta();
    lista.deletar(x);
    lista.inserir_antes(z, 'v');
    assert_eq!(lista.anterior(z), ('v', x));
    assert_eq!(texto_duplo(&lista), "wvz");
}

#[test]
fn dupla_vazia_tem_cabeca_e_ponta_iguais_e_colocar_as_mantem() {
    let mut lista: ListaDupla<u8> = ListaDupla::novo();
    let cabeca = lista.cabeca();
    assert_eq!(cabeca, lista.ponta());
    lista.colocar(1);
    assert_eq!(lista.cabeca(), cabeca);
    lista.deletar(cabeca);
    let vazia = lista.cabeca();
    assert_eq!(vazia, lista.ponta());
    lista.inserir_cabeca(5);
    assert_eq!(lista.cabeca(), vazia);
    assert_eq!(lista.elementos(), vec![5]);
}

#[test]
fn dupla_iterador_none_para_sempre() {
    let lista = lista_dupla_de("a");
    let mut it = lista.into_iter();
    assert_eq!(it.next(), Some('a'));
    for _ in 0..3 {
        assert_eq!(it.next(), None);
    }
}

#[test]
fn dupla_contem() {
    let mut lista = lista_dupla_de("xyz");
    let x = lista.cabeca();
    let (_, y) = lista.proximo(x);
    assert!(lista.contem(y));
    lista.deletar(y);
    assert!(!lista.contem(y));
    assert!(lista.contem(x) && lista.contem(lista.ponta()));
}

#[test]
fn dupla_inserir_cabeca_nao_religa_a_ponta() {
    let mut lista = lista_dupla_de("ab");
    let a = lista.cabeca();
    let b = lista.ponta();
    lista.inserir_cabeca('z');
    assert_eq!(texto_duplo(&lista), "zab");
    lista.deletar(a);
    lista.deletar_cabeca();
    assert_eq!(texto_duplo(&lista), "b");
    assert_eq!(lista.cabeca(), b);
    // a ponta guarda ainda o endereço da cabeça que tinha quando foi colocada
    assert_eq!(lista.ler_cabeca(), ('b', a));
}
