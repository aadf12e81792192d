use lib::lista_encadeada::ListaEncadeada;

fn lista_de(texto: &str) -> ListaEncadeada<char> {
    let mut lista: ListaEncadeada<char> = ListaEncadeada::novo();
    for letra in texto.chars() {
        lista.colocar(letra);
    }
    lista
}

fn texto(lista: &ListaEncadeada<char>) -> String {
    lista.elementos().into_iter().collect()
}

#[test]
fn teste_bom_dia() {
    let mensagem: &str = "Bom dia!";
    let mut lista = lista_de(mensagem);
    assert_eq!(lista.n(), 8);

    let mut endereco = lista.cabeca();
    let mut pos_inserir = lista.cabeca();
    let (primeiro, _) = lista.ler_cabeca();
    let mut lido = String::new();
    lido.push(primeiro);
    for _i in 1..mensagem.len() {
        let (conteudo, end) = lista.proximo(endereco);
        endereco = end;
        lido.push(conteudo);
        if conteudo == 'm' {
            pos_inserir = endereco;
        }
    }
    assert_eq!(lido, "Bom dia!");
    assert_eq!(endereco, lista.ponta());

    lista.inserir_apos(pos_inserir, 's');
    assert_eq!(texto(&lista), "Boms dia!");

    let (c, pos_apos) = lista.proximo(pos_inserir);
    assert_eq!(c, 's');
    lista.alterar(pos_apos, '!');
    assert_eq!(texto(&lista), "Bom! dia!");

    lista.deletar_apos(pos_inserir);
    assert_eq!(texto(&lista), "Bom dia!");

    for _i in 1..=4 {
        lista.deletar_cabeca();
    }
    assert_eq!(texto(&lista), "dia!");
    assert_eq!(lista.n(), 4);
}

#[test]
fn teste_numerico() {
    let numeros: [i32; 5] = [10, 20, 30, 40, 50];
    let mut lista: ListaEncadeada<i32> = ListaEncadeada::novo();
    for n in numeros {
        lista.colocar(n);
    }
    let mut it = lista.into_iter();
    let mut vistos = Vec::new();
    while let Some(elem) = it.next() {
        vistos.push(elem);
    }
    assert_eq!(vistos, vec![10, 20, 30, 40, 50]);
    assert_eq!(it.next(), None);
}

#[test]
fn lista_nova_esta_vazia() {
    let lista: ListaEncadeada<u8> = ListaEncadeada::novo();
    assert_eq!(lista.n(), 0);
    assert!(lista.elementos().is_empty());
    assert_eq!(lista.into_iter().next(), None);
}

#[test]
fn colocar_acrescenta_no_fim() {
    let mut lista: ListaEncadeada<u32> = ListaEncadeada::novo();
    lista.colocar(7);
    assert_eq!(lista.elementos(), vec![7]);
    assert_eq!(lista.cabeca(), lista.ponta());
    lista.colocar(8);
    lista.colocar(9);
    assert_eq!(lista.elementos(), vec![7, 8, 9]);
    assert_eq!(lista.n(), 3);
}

#[test]
fn ler_cabeca_de_uma_celula_aponta_para_ela_mesma() {
    let mut lista: ListaEncadeada<u32> = ListaEncadeada::novo();
    lista.colocar(42);
    assert_eq!(lista.ler_cabeca(), (42, lista.cabeca()));
}

#[test]
fn ler_cabeca_devolve_o_endereco_da_segunda() {
    let mut lista = lista_de("xy");
    let cabeca = lista.cabeca();
    let (c, segunda) = lista.ler_cabeca();
    assert_eq!(c, 'x');
    assert_eq!(segunda, lista.ponta());
    assert_eq!(lista.proximo(cabeca), ('y', segunda));
}

#[test]
fn proximo2_nao_altera_a_lista() {
    let lista = lista_de("abc");
    let (b, end_b) = lista.proximo2(lista.cabeca());
    let (c, end_c) = lista.proximo2(end_b);
    assert_eq!((b, c), ('b', 'c'));
    assert_eq!(end_c, lista.ponta());
    assert_eq!(texto(&lista), "abc");
}

#[test]
fn inserir_apos_a_ponta_cria_nova_ponta() {
    let mut lista = lista_de("ab");
    let ponta = lista.ponta();
    lista.inserir_apos(ponta, 'c');
    assert_eq!(texto(&lista), "abc");
    let (c, nova) = lista.proximo(ponta);
    assert_eq!(c, 'c');
    assert_eq!(nova, lista.ponta());
    lista.colocar('d');
    assert_eq!(texto(&lista), "abcd");
}

#[test]
fn deletar_apos_a_penultima_move_a_ponta() {
    let mut lista = lista_de("abc");
    let (_, end_b) = lista.proximo(lista.cabeca());
    lista.deletar_apos(end_b);
    assert_eq!(texto(&lista), "ab");
    assert_eq!(lista.ponta(), end_b);
    lista.colocar('z');
    assert_eq!(texto(&lista), "abz");
}

#[test]
fn deletar_cabeca_ate_esvaziar_e_reusar() {
    let mut lista = lista_de("ab");
    let a = lista.cabeca();
    lista.deletar_cabeca();
    assert_eq!(texto(&lista), "b");
    // a ponta continua a guardar o endereço da antiga cabeça
    assert_eq!(lista.ler_cabeca(), ('b', a));
    lista.deletar_cabeca();
    assert_eq!(lista.n(), 0);
    assert_eq!(texto(&lista), "");
    lista.colocar('q');
    assert_eq!(texto(&lista), "q");
}

#[test]
fn inserir_e_deletar_apos_devolve_a_lista() {
    let mut lista = lista_de("uvw");
    let cabeca = lista.cabeca();
    lista.inserir_apos(cabeca, '#');
    assert_eq!(texto(&lista), "u#vw");
    lista.deletar_apos(cabeca);
    assert_eq!(texto(&lista), "uvw");
}

#[test]
fn enderecos_continuam_validos_depois_de_insercoes() {
    let mut lista = lista_de("ace");
    let a = lista.cabeca();
    let (_, c) = lista.proximo(a);
    let e = lista.ponta();
    lista.inserir_apos(a, 'b');
    lista.inserir_apos(c, 'd');
    assert_eq!(texto(&lista), "abcde");
    assert_eq!(lista.proximo(c).0, 'd');
    let (d, end_d) = lista.proximo(c);
    assert_eq!(d, 'd');
    assert_eq!(lista.proximo(end_d), ('e', e));
    lista.deletar_apos(a);
    assert_eq!(texto(&lista), "acde");
    assert_eq!(lista.proximo(a), ('c', c));
}

#[test]
fn alterar_troca_so_um_conteudo() {
    let mut lista = lista_de("abc");
    let ponta = lista.ponta();
    lista.alterar(ponta, 'Z');
    assert_eq!(texto(&lista), "abZ");
    let cabeca = lista.cabeca();
    lista.alterar(cabeca, 'Y');
    assert_eq!(texto(&lista), "YbZ");
}

#[test]
fn iterador_entrega_na_ordem_e_depois_none() {
    let lista = lista_de("xyz");
    let mut it = lista.into_iter();
    assert_eq!(it.next(), Some('x'));
    assert_eq!(it.next(), Some('y'));
    assert_eq!(it.next(), Some('z'));
    assert_eq!(it.next(), None);
    assert_eq!(it.next(), None);
}

#[test]
fn celulas_removidas_sao_reaproveitadas() {
    let mut lista = lista_de("abc");
    let a = lista.cabeca();
    let (_, b) = lista.proximo(a);
    lista.deletar_apos(a);
    lista.colocar('d');
    assert_eq!(lista.ponta(), b);
    assert_eq!(texto(&lista), "acd");
    lista.deletar_cabeca();
    lista.inserir_apos(b, 'e');
    let (e, end_e) = lista.proximo(b);
    assert_eq!(e, 'e');
    assert_eq!(end_e, a);
    assert_eq!(texto(&lista), "cde");
}

#[test]
fn lista_vazia_tem_cabeca_e_ponta_iguais_e_colocar_as_mantem() {
    let mut lista: ListaEncadeada<u8> = ListaEncadeada::novo();
    let cabeca = lista.cabeca();
    assert_eq!(cabeca, lista.ponta());
    lista.colocar(1);
    assert_eq!(lista.cabeca(), cabeca);
    assert_eq!(lista.ponta(), cabeca);
    lista.colocar(2);
    lista.deletar_cabeca();
    lista.deletar_cabeca();
    let vazia = lista.cabeca();
    assert_eq!(vazia, lista.ponta());
    lista.colocar(3);
    assert_eq!(lista.cabeca(), vazia);
}

#[test]
fn contem_reconhece_so_enderecos_em_uso() {
    let mut lista = lista_de("abc");
    let a = lista.cabeca();
    let (_, b) = lista.proximo(a);
    let c = lista.ponta();
    assert!(lista.contem(a) && lista.contem(b) && lista.contem(c));
    assert!(!lista.contem(c + 1));
    lista.deletar_apos(a);
    assert!(!lista.contem(b));
    assert!(lista.contem(c));
    let vazia: ListaEncadeada<u8> = ListaEncadeada::novo();
    assert!(!vazia.contem(vazia.cabeca()));
}

#[test]
fn enderecos_liberados_sao_reusados_do_ultimo_para_o_primeiro() {
    let mut lista = lista_de("abcd");
    let a = lista.cabeca();
    let (_, b) = lista.proximo(a);
    let (_, c) = lista.proximo(b);
    lista.deletar_apos(a);
    lista.deletar_apos(a);
    assert_eq!(texto(&lista), "ad");
    lista.inserir_apos(a, 'x');
    assert_eq!(lista.proximo(a).1, c);
    lista.colocar('y');
    assert_eq!(lista.ponta(), b);
    assert_eq!(texto(&lista), "axdy");
}

#[test]
fn ler_cabeca_depois_de_inserir_na_ponta_de_uma_celula() {
    let mut lista = lista_de("p");
    let p = lista.cabeca();
    lista.inserir_apos(p, 'q');
    let q = lista.ponta();
    assert_eq!(lista.ler_cabeca(), ('p', q));
    lista.deletar_cabeca();
    assert_eq!(lista.ler_cabeca(), ('q', p));
}
